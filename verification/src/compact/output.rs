//! How the entries that a compaction yields are divided among new tables.

use vstd::prelude::*;

verus! {

/// What to do with the next entry of a compaction.
#[derive(Debug, Clone, Copy, PartialEq, Eq, Structural)]
pub enum EntryAction {
    /// Leave the entry out.
    Drop,
    /// Begin a table with the entry.
    StartTable,
    /// Add the entry to the table that was begun.
    Append,
}

/// What a `TableSplitter` stands for.
pub struct SplitterView {
    /// Deleted keys are left out.
    pub is_bottom_level: bool,
    /// A table is complete once it is estimated to be this large.
    pub target_sst_size: usize,
    /// A table was begun and is not complete.
    pub is_open: bool,
}

impl SplitterView {
    /// What to do with an entry, by its value.
    pub open spec fn action(self, value: Seq<u8>) -> EntryAction {
        if self.is_bottom_level && value.len() == 0 {
            EntryAction::Drop
        } else if self.is_open {
            EntryAction::Append
        } else {
            EntryAction::StartTable
        }
    }
}

/// Divides the entries that a compaction yields among new tables.
pub struct TableSplitter {
    is_bottom_level: bool,
    target_sst_size: usize,
    is_open: bool,
}

impl View for TableSplitter {
    type V = SplitterView;

    closed spec fn view(&self) -> SplitterView {
        SplitterView {
            is_bottom_level: self.is_bottom_level,
            target_sst_size: self.target_sst_size,
            is_open: self.is_open,
        }
    }
}

impl TableSplitter {
    /// No table is begun.
    pub fn new(is_bottom_level: bool, target_sst_size: usize) -> (splitter: Self)
        ensures
            splitter@ == (SplitterView { is_bottom_level, target_sst_size, is_open: false }),
    {
        TableSplitter { is_bottom_level, target_sst_size, is_open: false }
    }

    /// What to do with the next entry.
    pub fn next_entry(&mut self, value: &[u8]) -> (action: EntryAction)
        ensures
            action == old(self)@.action(value@),
            final(self)@ == (SplitterView {
                is_open: old(self)@.is_open || action == EntryAction::StartTable,
                ..old(self)@
            }),
    {
        if self.is_bottom_level && value.len() == 0 {
            EntryAction::Drop
        } else if self.is_open {
            EntryAction::Append
        } else {
            self.is_open = true;
            EntryAction::StartTable
        }
    }

    /// Whether the table is complete, given how large it is estimated to be with the entry that
    /// was just added to it.
    pub fn entry_added(&mut self, estimated_size: usize) -> (complete: bool)
        requires
            old(self)@.is_open,
        ensures
            complete == (estimated_size >= old(self)@.target_sst_size),
            final(self)@ == (SplitterView { is_open: !complete, ..old(self)@ }),
    {
        self.is_open = estimated_size < self.target_sst_size;
        !self.is_open
    }

    /// Whether there is a table left to complete after the last entry.
    pub fn finish(self) -> (complete: bool)
        ensures
            complete == self@.is_open,
    {
        self.is_open
    }
}

/// The tables that come of a run of entries: those completed, and the one that is open if there
/// is one. `sizes[i]` is the size reported once entry `i` was added.
#[verifier::ext_equal]
pub struct SplitRun<E> {
    pub tables: Seq<Seq<E>>,
    pub open: Option<Seq<E>>,
}

/// The run after one more entry.
pub open spec fn split_step<E>(
    run: SplitRun<E>,
    is_bottom_level: bool,
    target_sst_size: usize,
    entry: E,
    value: Seq<u8>,
    size: usize,
) -> SplitRun<E> {
    let splitter = SplitterView { is_bottom_level, target_sst_size, is_open: run.open is Some };
    let grown = match splitter.action(value) {
        EntryAction::Drop => None,
        EntryAction::StartTable => Some(seq![entry]),
        EntryAction::Append => Some(run.open->Some_0.push(entry)),
    };
    match grown {
        None => run,
        Some(table) => if size >= target_sst_size {
            SplitRun { tables: run.tables.push(table), open: None }
        } else {
            SplitRun { open: Some(table), ..run }
        },
    }
}

/// The run over all the entries, in the order in which they come.
pub open spec fn split_run<K>(
    is_bottom_level: bool,
    target_sst_size: usize,
    entries: Seq<(K, Seq<u8>)>,
    sizes: Seq<usize>,
) -> SplitRun<(K, Seq<u8>)>
    decreases entries.len(),
{
    if entries.len() == 0 {
        SplitRun { tables: Seq::empty(), open: None }
    } else {
        let before = split_run(is_bottom_level, target_sst_size, entries.drop_last(), sizes);
        let entry = entries.last();
        split_step(
            before,
            is_bottom_level,
            target_sst_size,
            entry,
            entry.1,
            sizes[entries.len() - 1],
        )
    }
}

/// All the tables of a run, the open one completed at the end.
pub open spec fn split_tables<E>(run: SplitRun<E>) -> Seq<Seq<E>> {
    match run.open {
        Some(table) => run.tables.push(table),
        None => run.tables,
    }
}

/// The entries of some tables, one table after the other.
pub open spec fn joined<E>(tables: Seq<Seq<E>>) -> Seq<E>
    decreases tables.len(),
{
    if tables.len() == 0 {
        Seq::empty()
    } else {
        joined(tables.drop_last()) + tables.last()
    }
}

/// The entries that a compaction keeps: at the bottom level, those that are not deletions.
pub open spec fn kept<K>(is_bottom_level: bool, entries: Seq<(K, Seq<u8>)>) -> Seq<(K, Seq<u8>)>
    decreases entries.len(),
{
    if entries.len() == 0 {
        entries
    } else if is_bottom_level && entries.last().1.len() == 0 {
        kept(is_bottom_level, entries.drop_last())
    } else {
        kept(is_bottom_level, entries.drop_last()).push(entries.last())
    }
}

proof fn lemma_joined_push<E>(tables: Seq<Seq<E>>, table: Seq<E>)
    ensures
        joined(tables.push(table)) == joined(tables) + table,
{
    assert(tables.push(table).drop_last() =~= tables);
}

/// Whatever sizes are reported, the tables of a compaction hold exactly the entries that it
/// keeps, in their order, and none of the tables is empty.
pub proof fn lemma_split_keeps_entries<K>(
    is_bottom_level: bool,
    target_sst_size: usize,
    entries: Seq<(K, Seq<u8>)>,
    sizes: Seq<usize>,
)
    ensures
        ({
            let tables = split_tables(split_run(is_bottom_level, target_sst_size, entries, sizes));
            &&& joined(tables) == kept(is_bottom_level, entries)
            &&& forall|i: int| 0 <= i < tables.len() ==> (#[trigger] tables[i]).len() > 0
        }),
    decreases entries.len(),
{
    let run = split_run(is_bottom_level, target_sst_size, entries, sizes);
    if entries.len() > 0 {
        let front = entries.drop_last();
        let entry = entries.last();
        let before = split_run(is_bottom_level, target_sst_size, front, sizes);
        lemma_split_keeps_entries(is_bottom_level, target_sst_size, front, sizes);
        assert forall|i: int| 0 <= i < before.tables.len() implies (#[trigger] before.tables[i]).len()
            > 0 by {
            assert(before.tables[i] == split_tables(before)[i]);
        }
        if !(is_bottom_level && entry.1.len() == 0) {
            match before.open {
                Some(table) => {
                    lemma_joined_push(before.tables, table);
                    lemma_joined_push(before.tables, table.push(entry));
                    assert(joined(before.tables) + table.push(entry) =~= (joined(before.tables)
                        + table).push(entry));
                },
                None => {
                    lemma_joined_push(before.tables, seq![entry]);
                    assert(joined(before.tables) + seq![entry] =~= joined(before.tables).push(
                        entry,
                    ));
                },
            }
        }
    }
}

/// Deletions are left out at the bottom level and nowhere else. Any other entry goes into the table
/// that is open, or begins one.
pub proof fn lemma_entry_action(splitter: SplitterView, value: Seq<u8>)
    ensures
        (splitter.action(value) is Drop) == (splitter.is_bottom_level && value.len() == 0),
        splitter.action(value) is Append ==> splitter.is_open,
        splitter.action(value) is StartTable ==> !splitter.is_open,
{
}

/// How one more entry changes the tables of a compaction: not at all if it is left out; else it
/// comes last in the table that is open, or in a new one, and the table is complete exactly if it
/// is reported to have the target size with it.
pub proof fn lemma_table_is_complete_at_target<K>(
    is_bottom_level: bool,
    target_sst_size: usize,
    entries: Seq<(K, Seq<u8>)>,
    sizes: Seq<usize>,
)
    ensures
        ({
            let run = split_run(is_bottom_level, target_sst_size, entries, sizes);
            if entries.len() == 0 {
                run.tables.len() == 0 && run.open is None
            } else {
                let n = entries.len() - 1;
                let before = split_run(is_bottom_level, target_sst_size, entries.take(n), sizes);
                let begun = match before.open {
                    Some(table) => table,
                    None => Seq::empty(),
                };
                let grown = begun.push(entries[n]);
                if is_bottom_level && entries[n].1.len() == 0 {
                    run.tables == before.tables && run.open == before.open
                } else if sizes[n] >= target_sst_size {
                    run.tables == before.tables.push(grown) && run.open is None
                } else {
                    run.tables == before.tables && run.open == Some(grown)
                }
            }
        }),
{
    if entries.len() > 0 {
        let n = entries.len() - 1;
        assert(entries.take(n) =~= entries.drop_last());
        assert(Seq::empty().push(entries[n]) =~= seq![entries[n]]);
    }
}

/// At the end, the tables of a compaction are the complete ones and the one that is open, if any.
pub proof fn lemma_all_tables<E>(run: SplitRun<E>)
    ensures
        run.open is None ==> split_tables(run) == run.tables,
        run.open is Some ==> split_tables(run) == run.tables.push(run.open->Some_0),
{
}


/// What is kept of some entries are those that are no deletions, at the bottom level, and all of
/// them elsewhere.
pub proof fn lemma_kept_is_filter<K>(is_bottom_level: bool, entries: Seq<(K, Seq<u8>)>)
    ensures
        is_bottom_level ==> kept(is_bottom_level, entries) == entries.filter(
            |entry: (K, Seq<u8>)| entry.1.len() > 0,
        ),
        !is_bottom_level ==> kept(is_bottom_level, entries) == entries,
    decreases entries.len(),
{
    reveal(Seq::filter);
    if entries.len() > 0 {
        lemma_kept_is_filter(is_bottom_level, entries.drop_last());
        assert(entries =~= entries.drop_last().push(entries.last()));
    }
}

/// Joined tables are one after the other.
pub proof fn lemma_joined_is_flat<E>(tables: Seq<Seq<E>>)
    ensures
        joined(tables) == tables.flatten(),
    decreases tables.len(),
{
    if tables.len() > 0 {
        lemma_joined_is_flat(tables.drop_last());
        tables.lemma_flatten_and_flatten_alt_are_equivalent();
        tables.drop_last().lemma_flatten_and_flatten_alt_are_equivalent();
    }
}

} // verus!
