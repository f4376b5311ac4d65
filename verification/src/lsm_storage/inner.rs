//! The storage engine without its files, locks and threads: the state, the numbers of tables and
//! memtables, and what each operation makes of them.

use std::sync::Arc;

use vstd::prelude::*;

use super::recovery::{
    find_next_id, lemma_level_ids_are_table_ids, lemma_with_tables_has, next_id,
};
use super::{
    ids_of, tables_view, with_tables, CompactionFilter, FilterView, LsmStorageOptions,
    LsmStorageState, StateView,
};
use crate::compact::{
    state_after, unused_tables, CompactionController, CompactionOptions, CompactionTask,
    CompactionTaskView,
};
use crate::ids::append_ids;
use crate::manifest::{ManifestRecord, RecordView};
use crate::mem_table::MemTable;
use crate::table::{SsTable, TableView};

verus! {

/// The storage interface of the LSM tree.
pub struct LsmStorageInner {
    state: Arc<LsmStorageState>,
    next_sst_id: usize,
    options: LsmStorageOptions,
    compaction_controller: CompactionController,
    compaction_filters: Vec<CompactionFilter>,
}

/// What an `LsmStorageInner` stands for.
#[verifier::ext_equal]
pub struct InnerView {
    pub state: StateView,
    pub next_sst_id: usize,
    pub options: LsmStorageOptions,
    pub compaction_controller: CompactionController,
    pub compaction_filters: Seq<FilterView>,
}

impl View for LsmStorageInner {
    type V = InnerView;

    closed spec fn view(&self) -> InnerView {
        InnerView {
            state: self.state@,
            next_sst_id: self.next_sst_id,
            options: self.options,
            compaction_controller: self.compaction_controller,
            compaction_filters: self.compaction_filters@.map_values(|f: CompactionFilter| f@),
        }
    }
}

impl StateView {
    /// The state once the current memtable is immutable and a new one has taken its place.
    pub open spec fn frozen(self, id: usize) -> StateView {
        StateView {
            memtable: id,
            imm_memtables: seq![self.memtable] + self.imm_memtables,
            ..self
        }
    }

    /// The state once the earliest memtable has become a table.
    pub open spec fn flushed(self, to_l0: bool, table: TableView) -> StateView {
        StateView {
            imm_memtables: self.imm_memtables.drop_last(),
            sstables: self.sstables.insert(table.id, table),
            ..self.with_flushed(to_l0, table.id)
        }
    }

    /// The tables `gone` are there and can be replaced by new ones.
    pub open spec fn can_replace(self, gone: Seq<usize>, tables: Seq<TableView>) -> bool {
        &&& gone.no_duplicates()
        &&& forall|i: int| 0 <= i < gone.len() ==> self.sstables.contains_key(#[trigger] gone[i])
        &&& ids_of(tables).no_duplicates()
        &&& forall|i: int|
            0 <= i < tables.len() ==> !self.sstables.contains_key((#[trigger] tables[i]).id)
                || gone.contains(tables[i].id)
    }

    /// The state with the tables `gone` replaced by new ones.
    pub open spec fn replaced(self, gone: Seq<usize>, tables: Seq<TableView>) -> StateView {
        StateView {
            sstables: with_tables(self.sstables.remove_keys(gone.to_set()), tables),
            ..self
        }
    }

    /// The state once L0 and the first level have been merged: of L0 what has been flushed since.
    pub open spec fn fully_compacted(
        self,
        l0: Seq<usize>,
        l1: Seq<usize>,
        tables: Seq<TableView>,
    ) -> StateView {
        StateView {
            l0_sstables: self.l0_sstables.take(self.l0_sstables.len() - l0.len()),
            ..self.replaced(l0 + l1, tables).with_level_ids(1, ids_of(tables))
        }
    }
}

impl CompactionController {
    /// This is the strategy of the options.
    pub open spec fn is_for(&self, options: CompactionOptions) -> bool {
        match (self, options) {
            (CompactionController::Leveled(ctrl), CompactionOptions::Leveled(o)) => ctrl.options()
                == o,
            (CompactionController::Tiered(ctrl), CompactionOptions::Tiered(o)) => ctrl.options()
                == o && ctrl.wf(),
            (CompactionController::Simple(ctrl), CompactionOptions::Simple(o)) => ctrl.options()
                == o,
            (CompactionController::NoCompaction, CompactionOptions::NoCompaction) => true,
            _ => false,
        }
    }
}

/// What is left to do to close the engine.
#[derive(Debug, Clone, Copy, PartialEq, Eq, Structural)]
pub enum CloseStep {
    /// Freeze the current memtable.
    Freeze,
    /// Flush the earliest memtable.
    Flush,
    /// Nothing.
    Done,
}

impl LsmStorageInner {
    /// The engine with a state that has been brought back from the manifest and the tables that
    /// it names, in the order of `table_ids`. The current memtable gets the least number above
    /// those of the tables, and the tables to come get those above it.
    pub fn open(
        options: LsmStorageOptions,
        compaction_controller: CompactionController,
        state: LsmStorageState,
        tables: Vec<Arc<SsTable>>,
    ) -> (inner: Self)
        requires
            ids_of(tables_view(tables@)) == state@.table_ids(),
            next_id(state@.table_ids()) < usize::MAX,
        ensures
            inner@ == (InnerView {
                state: state@.opened(
                    tables_view(tables@),
                    options.compaction_options is Leveled,
                ),
                next_sst_id: (next_id(state@.table_ids()) + 1) as usize,
                options,
                compaction_controller,
                compaction_filters: Seq::empty(),
            }),
    {
        let mut state = state;
        let ids = state.table_ids();
        let next: usize = find_next_id(&ids);
        let ghost v = state@;
        state.open_tables(tables);
        proof {
            lemma_level_ids_are_table_ids(v);
            lemma_with_tables_has(v.sstables, tables_view(tables@));
            assert forall|level: int, i: int|
                1 <= level <= state@.levels.len() && 0 <= i < state@.level_ids(
                    level,
                ).len() implies state@.sstables.contains_key(
                #[trigger] state@.level_ids(level)[i],
            ) by {
                assert(v.table_ids().contains(v.level_ids(level)[i]));
            }
        }
        if let CompactionOptions::Leveled(_) = options.compaction_options {
            state.sort_levels();
        }
        state.memtable = Arc::new(MemTable::create(next));
        let inner = LsmStorageInner {
            state: Arc::new(state),
            next_sst_id: next + 1,
            options,
            compaction_controller,
            compaction_filters: Vec::new(),
        };
        assert(inner@.compaction_filters =~= Seq::empty());
        inner
    }

    /// The current state.
    pub fn snapshot(&self) -> (state: Arc<LsmStorageState>)
        ensures
            state@ == self@.state,
    {
        self.state.clone()
    }

    /// The options of the engine.
    pub fn options(&self) -> (options: &LsmStorageOptions)
        ensures
            *options == self@.options,
    {
        &self.options
    }

    /// The compaction strategy of the engine.
    pub fn compaction_controller(&self) -> (controller: &CompactionController)
        ensures
            *controller == self@.compaction_controller,
    {
        &self.compaction_controller
    }

    /// The compaction filters, in the order in which they were added.
    pub fn compaction_filters(&self) -> (filters: &Vec<CompactionFilter>)
        ensures
            filters@.map_values(|f: CompactionFilter| f@) == self@.compaction_filters,
    {
        &self.compaction_filters
    }

    /// A number for a new table or memtable.
    pub fn next_sst_id(&mut self) -> (id: usize)
        ensures
            id == old(self)@.next_sst_id,
            final(self)@ == (InnerView {
                next_sst_id: if id == usize::MAX {
                    0
                } else {
                    (id + 1) as usize
                },
                ..old(self)@
            }),
    {
        let id: usize = self.next_sst_id;
        self.next_sst_id = if id == usize::MAX {
            0
        } else {
            id + 1
        };
        id
    }

    /// Adds a compaction filter.
    pub fn add_compaction_filter(&mut self, compaction_filter: CompactionFilter)
        ensures
            final(self)@ == (InnerView {
                compaction_filters: old(self)@.compaction_filters.push(compaction_filter@),
                ..old(self)@
            }),
    {
        self.compaction_filters.push(compaction_filter);
        assert(self@.compaction_filters =~= old(self)@.compaction_filters.push(compaction_filter@));
    }

    /// The size at which a memtable is frozen and a table is complete.
    pub fn target_sst_size(&self) -> (size: usize)
        ensures
            size == self@.options.target_sst_size,
    {
        self.options.target_sst_size
    }

    /// Freezes the current memtable if it was large enough after a write and still is.
    pub fn try_freeze_memtable(&mut self, new_approximate_size: usize, approximate_size: usize) -> (
    freeze: bool)
        ensures
            freeze == (new_approximate_size >= old(self)@.options.target_sst_size
                && approximate_size >= old(self)@.options.target_sst_size),
            final(self)@ == (if freeze {
                old(self)@.after_freeze()
            } else {
                old(self)@
            }),
    {
        if new_approximate_size >= self.target_sst_size() && approximate_size
            >= self.target_sst_size() {
            self.force_freeze_memtable();
            return true;
        }
        false
    }

    /// Force freeze the current memtable to an immutable memtable
    pub fn force_freeze_memtable(&mut self)
        ensures
            final(self)@ == old(self)@.after_freeze(),
    {
        let id: usize = self.next_sst_id();
        let mut snapshot = LsmStorageState::clone(&self.state);
        let old_memtable = snapshot.memtable;
        snapshot.memtable = Arc::new(MemTable::create(id));
        snapshot.imm_memtables.insert(0, old_memtable);
        assert(snapshot@.imm_memtables =~= old(self)@.state.frozen(id).imm_memtables);
        self.state = Arc::new(snapshot);
    }

    /// The number of the earliest memtable, which is flushed next.
    pub fn next_flush(&self) -> (id: usize)
        requires
            self@.state.imm_memtables.len() > 0,
        ensures
            id == self@.state.imm_memtables.last(),
    {
        let count: usize = self.state.imm_memtables.len();
        self.state.imm_memtables[count - 1].id()
    }

    /// Puts the table that the earliest memtable was flushed to in its place. The record that
    /// belongs in the manifest comes back.
    pub fn finish_flush(&mut self, sst: Arc<SsTable>) -> (record: ManifestRecord)
        requires
            old(self)@.state.imm_memtables.len() > 0,
            sst@.id == old(self)@.state.imm_memtables.last(),
        ensures
            final(self)@ == (InnerView {
                state: old(self)@.state.flushed(
                    !(old(self)@.compaction_controller is Tiered),
                    sst@,
                ),
                ..old(self)@
            }),
            record@ == RecordView::Flush(sst@.id),
    {
        broadcast use vstd::std_specs::hash::group_hash_axioms;

        let id: usize = sst.sst_id();
        let ghost v = self@.state;
        let ghost table = sst@;
        let mut snapshot = LsmStorageState::clone(&self.state);
        snapshot.imm_memtables.pop();
        assert(snapshot@.imm_memtables =~= v.imm_memtables.drop_last());
        let to_l0 = self.compaction_controller.flush_to_l0();
        snapshot.add_flushed(to_l0, id);
        let ghost before = snapshot@.sstables;
        snapshot.sstables.insert(id, sst);
        assert(snapshot@.sstables =~= before.insert(id, table));
        self.state = Arc::new(snapshot);
        ManifestRecord::Flush(id)
    }

    /// Whether there are more memtables than the options allow.
    pub fn should_flush(&self) -> (flush: bool)
        ensures
            flush == (self@.state.imm_memtables.len() + 1 > self@.options.num_memtable_limit),
    {
        self.state.imm_memtables.len() >= self.options.num_memtable_limit
    }

    /// Whether there are immutable memtables.
    pub fn has_imm_memtables(&self) -> (has: bool)
        ensures
            has == (self@.state.imm_memtables.len() > 0),
    {
        self.state.imm_memtables.len() > 0
    }

    /// What is left to do to close the engine. With a write-ahead log that is nothing. Without one
    /// the current memtable is frozen once, unless it is empty, and then all are flushed.
    pub fn close_step(&self, memtable_is_done: bool) -> (step: CloseStep)
        ensures
            step == (if self@.options.enable_wal {
                CloseStep::Done
            } else if !memtable_is_done {
                CloseStep::Freeze
            } else if self@.state.imm_memtables.len() > 0 {
                CloseStep::Flush
            } else {
                CloseStep::Done
            }),
    {
        if self.options.enable_wal {
            CloseStep::Done
        } else if !memtable_is_done {
            CloseStep::Freeze
        } else if self.has_imm_memtables() {
            CloseStep::Flush
        } else {
            CloseStep::Done
        }
    }

    /// Whether compaction runs in the background.
    pub fn compacts_in_background(&self) -> (compacts: bool)
        ensures
            compacts == !(self@.options.compaction_options is NoCompaction),
    {
        match self.options.compaction_options {
            CompactionOptions::NoCompaction => false,
            _ => true,
        }
    }

    /// The task that merges all of L0 and the first level.
    pub fn full_compaction_task(&self) -> (task: CompactionTask)
        requires
            self@.state.levels.len() > 0,
        ensures
            task@ == (CompactionTaskView::ForceFullCompaction {
                l0_sstables: self@.state.l0_sstables,
                l1_sstables: self@.state.level_ids(1),
            }),
    {
        CompactionTask::ForceFullCompaction {
            l0_sstables: self.state.l0_sstables.clone(),
            l1_sstables: self.state.level(1).clone(),
        }
    }

    /// Whether `finish_full_compaction` can be called.
    pub fn can_finish_full_compaction(
        &self,
        l0_sstables: &Vec<usize>,
        l1_sstables: &Vec<usize>,
        tables: &Vec<Arc<SsTable>>,
    ) -> (can: bool)
        ensures
            can == (self@.state.levels.len() > 0 && l0_sstables@.len()
                <= self@.state.l0_sstables.len() && self@.state.can_replace(
                l0_sstables@ + l1_sstables@,
                tables_view(tables@),
            )),
    {
        let mut gone: Vec<usize> = l0_sstables.clone();
        append_ids(&mut gone, l1_sstables.as_slice());
        let levels: usize = self.state.levels.len();
        assert(levels == self@.state.levels.len());
        levels > 0 && l0_sstables.len() <= self.state.l0_sstables.len() && self.state.can_replace(
            &gone,
            tables,
        )
    }

    /// Puts the tables that L0 and the first level were merged into in their place. The ids of the
    /// tables that are no longer used come back.
    pub fn finish_full_compaction(
        &mut self,
        l0_sstables: &Vec<usize>,
        l1_sstables: &Vec<usize>,
        tables: Vec<Arc<SsTable>>,
    ) -> (unused: Vec<usize>)
        requires
            old(self)@.state.levels.len() > 0,
            l0_sstables@.len() <= old(self)@.state.l0_sstables.len(),
            old(self)@.state.can_replace(l0_sstables@ + l1_sstables@, tables_view(tables@)),
        ensures
            final(self)@ == (InnerView {
                state: old(self)@.state.fully_compacted(
                    l0_sstables@,
                    l1_sstables@,
                    tables_view(tables@),
                ),
                ..old(self)@
            }),
            unused@ == l0_sstables@ + l1_sstables@,
    {
        let mut snapshot = LsmStorageState::clone(&self.state);
        let mut gone: Vec<usize> = l0_sstables.clone();
        append_ids(&mut gone, l1_sstables.as_slice());
        let l1_sst_ids = super::collect_ids(&tables);
        snapshot.replace_tables(&gone, tables);
        snapshot.set_level_ids(1, l1_sst_ids);
        let l0_truncate_len: usize = snapshot.l0_sstables.len() - l0_sstables.len();
        snapshot.truncate_l0(l0_truncate_len);
        self.state = Arc::new(snapshot);
        gone
    }

    /// Which tables to compact next, if any.
    pub fn next_compaction(&self) -> (task: Option<CompactionTask>)
        requires
            self@.compaction_controller.can_generate(self@.state),
        ensures
            self@.compaction_controller.generates(
                self@.state,
                match task {
                    Some(task) => Some(task@),
                    None => None,
                },
            ),
    {
        self.compaction_controller.generate_compaction_task(&self.state)
    }

    /// Whether `finish_compaction` can be called.
    pub fn can_finish_compaction(&self, task: &CompactionTask, tables: &Vec<Arc<SsTable>>) -> (can:
        bool)
        ensures
            can == (self@.compaction_controller.can_apply(
                self@.state,
                task@,
                ids_of(tables_view(tables@)),
                false,
            ) && self@.state.can_replace(
                unused_tables(self@.state, task@),
                tables_view(tables@),
            )),
    {
        let output = super::collect_ids(tables);
        if !self.compaction_controller.can_apply_result(
            &self.state,
            task,
            output.as_slice(),
            false,
        ) {
            return false;
        }
        let (_, unused) = self.compaction_controller.apply_compaction_result(
            &self.state,
            task,
            output.as_slice(),
            false,
        );
        self.state.can_replace(&unused, tables)
    }

    /// Puts the tables that a task was compacted into in their place. The ids of the tables that
    /// are no longer used come back.
    pub fn finish_compaction(&mut self, task: &CompactionTask, tables: Vec<Arc<SsTable>>) -> (
    unused: Vec<usize>)
        requires
            old(self)@.compaction_controller.can_apply(
                old(self)@.state,
                task@,
                ids_of(tables_view(tables@)),
                false,
            ),
            old(self)@.state.can_replace(
                unused_tables(old(self)@.state, task@),
                tables_view(tables@),
            ),
        ensures
            final(self)@ == (InnerView {
                state: state_after(
                    old(self)@.state,
                    task@,
                    ids_of(tables_view(tables@)),
                    false,
                ).replaced(unused_tables(old(self)@.state, task@), tables_view(tables@)),
                ..old(self)@
            }),
            unused@ == unused_tables(old(self)@.state, task@),
    {
        let output = super::collect_ids(&tables);
        let (after, unused) = self.compaction_controller.apply_compaction_result(
            &self.state,
            task,
            output.as_slice(),
            false,
        );
        let mut snapshot = after;
        proof {
            crate::compact::lemma_apply_keeps_tables(self@.state, task@, output@, false);
        }
        snapshot.replace_tables(&unused, tables);
        self.state = Arc::new(snapshot);
        unused
    }
}

impl InnerView {
    /// The engine once the current memtable has been frozen, with the next number for the new one.
    pub open spec fn after_freeze(self) -> InnerView {
        InnerView {
            state: self.state.frozen(self.next_sst_id),
            next_sst_id: if self.next_sst_id == usize::MAX {
                0
            } else {
                (self.next_sst_id + 1) as usize
            },
            ..self
        }
    }
}

} // verus!
