//! What stays as it was of the tables when some of them are replaced by others.

use vstd::prelude::*;

use super::contents::Contents;
use super::invariants::are_fresh;
use super::recovery::lemma_level_ids_are_table_ids;
use super::{ids_of, with_tables, StateView};
use crate::compact::laws::is_disjoint_run;
use crate::key::{bytes_le, key_le, key_lt, lemma_key_le_transitive, KeyView};
use crate::table::TableView;

verus! {

/// The table has a range of keys, and holds only keys of this range.
pub open spec fn is_sound(contents: Contents, table: TableView) -> bool {
    &&& key_le(table.first_key, table.last_key)
    &&& forall|key: Seq<u8>| #[trigger]
        contents(table.id).contains_key(key) ==> bytes_le(table.first_key.key, key) && bytes_le(
            key,
            table.last_key.key,
        )
}

/// Each of the tables has a range of keys, and these ranges are sorted.
pub open spec fn ranges_ascend(tables: Seq<TableView>) -> bool {
    &&& forall|i: int|
        0 <= i < tables.len() ==> key_le((#[trigger] tables[i]).first_key, tables[i].last_key)
    &&& forall|i: int, j: int|
        0 <= i < j < tables.len() ==> key_le(
            (#[trigger] tables[i]).first_key,
            (#[trigger] tables[j]).first_key,
        ) && key_le(tables[i].last_key, tables[j].last_key)
}

/// Each of the tables has a range of keys that ends before that of the next one begins.
pub open spec fn ranges_are_disjoint(tables: Seq<TableView>) -> bool {
    &&& forall|i: int|
        0 <= i < tables.len() ==> key_le((#[trigger] tables[i]).first_key, tables[i].last_key)
    &&& forall|i: int, j: int|
        0 <= i < j < tables.len() ==> key_lt(
            (#[trigger] tables[i]).last_key,
            (#[trigger] tables[j]).first_key,
        )
}

/// The tables hold only keys of their ranges, and these ranges are sorted.
pub open spec fn are_sound(contents: Contents, tables: Seq<TableView>) -> bool {
    &&& forall|i: int| 0 <= i < tables.len() ==> is_sound(contents, #[trigger] tables[i])
    &&& ranges_ascend(tables)
}

/// The ranges of the tables lie between two keys.
pub open spec fn lie_within(tables: Seq<TableView>, span: (KeyView, KeyView)) -> bool {
    forall|i: int|
        0 <= i < tables.len() ==> key_le(span.0, (#[trigger] tables[i]).first_key) && key_le(
            tables[i].last_key,
            span.1,
        )
}

/// A new table is filed under its id.
pub(crate) proof fn lemma_new_table(map: Map<usize, TableView>, tables: Seq<TableView>, i: int)
    requires
        ids_of(tables).no_duplicates(),
        0 <= i < tables.len(),
    ensures
        with_tables(map, tables).contains_key(tables[i].id),
        with_tables(map, tables)[tables[i].id] == tables[i],
    decreases tables.len(),
{
    let front = tables.drop_last();
    let n = tables.len() - 1;
    if i < n {
        assert forall|a: int, b: int|
            0 <= a < ids_of(front).len() && 0 <= b < ids_of(front).len() && a != b implies ids_of(
            front,
        )[a] != ids_of(front)[b] by {
            assert(ids_of(tables)[a] != ids_of(tables)[b]);
        }
        lemma_new_table(map, front, i);
        assert(ids_of(tables)[i] != ids_of(tables)[n]);
    }
}

/// A table that is there and not new is the one that was there.
pub(crate) proof fn lemma_old_table(map: Map<usize, TableView>, tables: Seq<TableView>, id: usize)
    requires
        !ids_of(tables).contains(id),
    ensures
        with_tables(map, tables).contains_key(id) == map.contains_key(id),
        map.contains_key(id) ==> with_tables(map, tables)[id] == map[id],
    decreases tables.len(),
{
    if tables.len() > 0 {
        let front = tables.drop_last();
        assert(ids_of(tables)[tables.len() - 1] == tables.last().id);
        if ids_of(front).contains(id) {
            let k = choose|k: int| 0 <= k < front.len() && ids_of(front)[k] == id;
            assert(ids_of(tables)[k] == id);
        }
        lemma_old_table(map, front, id);
    }
}

/// A table that was listed and is there is the one that was there.
pub(crate) proof fn lemma_table_survives(
    v: StateView,
    after: StateView,
    gone: Seq<usize>,
    tables: Seq<TableView>,
    next: int,
    id: usize,
)
    requires
        after.sstables == v.replaced(gone, tables).sstables,
        are_fresh(v, ids_of(tables), next),
        v.table_ids().contains(id),
        after.sstables.contains_key(id),
    ensures
        v.sstables.contains_key(id),
        after.sstables[id] == v.sstables[id],
{
    let k = choose|k: int| 0 <= k < v.table_ids().len() && v.table_ids()[k] == id;
    assert(v.recency()[1 + v.imm_memtables.len() + k] == id);
    if ids_of(tables).contains(id) {
        let i = choose|i: int| 0 <= i < tables.len() && ids_of(tables)[i] == id;
        assert(v.recency().contains(ids_of(tables)[i]));
    }
    lemma_old_table(v.sstables.remove_keys(gone.to_set()), tables, id);
}

/// The ids are listed before and after.
pub open spec fn is_listed(v: StateView, after: StateView, ids: Seq<usize>) -> bool {
    forall|i: int|
        0 <= i < ids.len() ==> v.table_ids().contains(#[trigger] ids[i])
            && after.table_ids().contains(ids[i])
}

/// Tables that are listed before and after are there, sorted and apart as they were.
pub(crate) proof fn lemma_run_survives(
    v: StateView,
    after: StateView,
    gone: Seq<usize>,
    tables: Seq<TableView>,
    next: int,
    ids: Seq<usize>,
)
    requires
        after.sstables == v.replaced(gone, tables).sstables,
        after.is_consistent(next),
        are_fresh(v, ids_of(tables), next),
        is_listed(v, after, ids),
    ensures
        forall|i: int|
            0 <= i < ids.len() ==> after.sstables.contains_key(#[trigger] ids[i])
                && after.sstables[ids[i]] == v.sstables[ids[i]],
        v.holds(ids) ==> after.holds(ids),
        v.is_sorted_run(ids) ==> after.is_sorted_run(ids),
        is_disjoint_run(v, ids) ==> is_disjoint_run(after, ids),
{
    assert forall|i: int| 0 <= i < ids.len() implies after.sstables.contains_key(
        #[trigger] ids[i],
    ) && after.sstables[ids[i]] == v.sstables[ids[i]] by {
        assert(after.sstables.contains_key(ids[i]) == after.table_ids().contains(ids[i]));
        lemma_table_survives(v, after, gone, tables, next, ids[i]);
    }
}

/// New tables with sorted ranges are a sorted run.
pub(crate) proof fn lemma_output_is_run(
    v: StateView,
    after: StateView,
    gone: Seq<usize>,
    tables: Seq<TableView>,
)
    requires
        after.sstables == v.replaced(gone, tables).sstables,
        ids_of(tables).no_duplicates(),
    ensures
        forall|i: int|
            0 <= i < tables.len() ==> after.sstables.contains_key((#[trigger] tables[i]).id)
                && after.sstables[tables[i].id] == tables[i],
        ranges_ascend(tables) ==> after.is_sorted_run(ids_of(tables)),
{
    let ids = ids_of(tables);
    assert forall|i: int| 0 <= i < tables.len() implies after.sstables.contains_key(
        (#[trigger] tables[i]).id,
    ) && after.sstables[tables[i].id] == tables[i] by {
        lemma_new_table(v.sstables.remove_keys(gone.to_set()), tables, i);
    }
    if ranges_ascend(tables) {
        assert forall|i: int| 0 <= i < ids.len() implies {
            &&& after.sstables.contains_key(#[trigger] ids[i])
            &&& after.sstables[ids[i]].id == ids[i]
            &&& key_le(after.sstables[ids[i]].first_key, after.sstables[ids[i]].last_key)
        } by {
            assert(ids[i] == tables[i].id);
        }
        assert forall|i: int, j: int| 0 <= i < j < ids.len() implies key_le(
            after.sstables[#[trigger] ids[i]].first_key,
            after.sstables[#[trigger] ids[j]].first_key,
        ) && key_le(after.sstables[ids[i]].last_key, after.sstables[ids[j]].last_key) by {
            assert(ids[i] == tables[i].id && ids[j] == tables[j].id);
        }
    }
}

/// Tables whose ranges end before those of the next ones begin are a sorted run.
pub(crate) proof fn lemma_disjoint_is_sorted(v: StateView, ids: Seq<usize>)
    requires
        v.holds(ids),
        forall|i: int, j: int|
            0 <= i < j < ids.len() ==> key_lt(
                v.sstables[#[trigger] ids[i]].last_key,
                v.sstables[#[trigger] ids[j]].first_key,
            ),
    ensures
        is_disjoint_run(v, ids),
{
    assert forall|i: int, j: int| 0 <= i < j < ids.len() implies key_le(
        v.sstables[#[trigger] ids[i]].first_key,
        v.sstables[#[trigger] ids[j]].first_key,
    ) && key_le(v.sstables[ids[i]].last_key, v.sstables[ids[j]].last_key) by {
        let (a, b) = (v.sstables[ids[i]], v.sstables[ids[j]]);
        lemma_key_le_transitive(a.first_key, a.last_key, b.first_key);
        lemma_key_le_transitive(a.last_key, b.first_key, b.last_key);
    }
}

/// The ids of L0 are table ids.
pub(crate) proof fn lemma_l0_ids_are_table_ids(v: StateView)
    ensures
        forall|i: int|
            0 <= i < v.l0_sstables.len() ==> v.table_ids().contains(#[trigger] v.l0_sstables[i]),
{
    assert forall|i: int| 0 <= i < v.l0_sstables.len() implies v.table_ids().contains(
        #[trigger] v.l0_sstables[i],
    ) by {
        assert(v.table_ids()[i] == v.l0_sstables[i]);
    }
}

/// A state stays readable when tables are replaced by sound ones, as long as L0 lists no others
/// than before and each level is sorted.
pub(crate) proof fn lemma_replaced_is_readable(
    v: StateView,
    after: StateView,
    contents: Contents,
    gone: Seq<usize>,
    tables: Seq<TableView>,
    next: int,
)
    requires
        v.is_readable(contents),
        v.is_consistent(next),
        after.is_consistent(next),
        after.sstables == v.replaced(gone, tables).sstables,
        are_fresh(v, ids_of(tables), next),
        forall|i: int| 0 <= i < tables.len() ==> is_sound(contents, #[trigger] tables[i]),
        forall|i: int|
            0 <= i < after.l0_sstables.len() ==> v.l0_sstables.contains(
                #[trigger] after.l0_sstables[i],
            ),
        after.levels_sorted(),
    ensures
        after.is_readable(contents),
{
    lemma_l0_ids_are_table_ids(v);
    lemma_l0_ids_are_table_ids(after);
    assert forall|i: int| 0 <= i < after.l0_sstables.len() implies {
        let id = #[trigger] after.l0_sstables[i];
        &&& after.sstables.contains_key(id)
        &&& after.sstables[id].id == id
        &&& key_le(after.sstables[id].first_key, after.sstables[id].last_key)
    } by {
        let id = after.l0_sstables[i];
        let k = choose|k: int| 0 <= k < v.l0_sstables.len() && v.l0_sstables[k] == id;
        assert(v.sstables.contains_key(v.l0_sstables[k]));
        assert(after.sstables.contains_key(id) == after.table_ids().contains(id));
        lemma_table_survives(v, after, gone, tables, next, id);
    }
    lemma_output_is_run(v, after, gone, tables);
    assert forall|id: usize, key: Seq<u8>|
        after.sstables.contains_key(id) && #[trigger] contents(id).contains_key(
            key,
        ) implies bytes_le(after.sstables[id].first_key.key, key) && bytes_le(
        key,
        after.sstables[id].last_key.key,
    ) by {
        if ids_of(tables).contains(id) {
            let i = choose|i: int| 0 <= i < tables.len() && ids_of(tables)[i] == id;
            assert(is_sound(contents, tables[i]));
            assert(contents(tables[i].id).contains_key(key));
        } else {
            lemma_old_table(v.sstables.remove_keys(gone.to_set()), tables, id);
        }
    }
}

/// A level that was listed as a whole before is sorted as it was.
pub(crate) proof fn lemma_level_survives(
    v: StateView,
    after: StateView,
    gone: Seq<usize>,
    tables: Seq<TableView>,
    next: int,
    old_level: int,
    new_level: int,
)
    requires
        after.sstables == v.replaced(gone, tables).sstables,
        after.is_consistent(next),
        are_fresh(v, ids_of(tables), next),
        1 <= old_level <= v.levels.len(),
        1 <= new_level <= after.levels.len(),
        after.level_ids(new_level) == v.level_ids(old_level),
    ensures
        v.is_sorted_run(v.level_ids(old_level)) ==> after.is_sorted_run(after.level_ids(new_level)),
        is_disjoint_run(v, v.level_ids(old_level)) ==> is_disjoint_run(
            after,
            after.level_ids(new_level),
        ),
{
    lemma_level_ids_are_table_ids(v);
    lemma_level_ids_are_table_ids(after);
    let ids = v.level_ids(old_level);
    assert forall|i: int| 0 <= i < ids.len() implies v.table_ids().contains(#[trigger] ids[i])
        && after.table_ids().contains(ids[i]) by {
        assert(v.table_ids().contains(v.level_ids(old_level)[i]));
        assert(after.table_ids().contains(after.level_ids(new_level)[i]));
    }
    lemma_run_survives(v, after, gone, tables, next, ids);
}

/// A state stays readable when a memtable is flushed to a new table that is sound.
pub(crate) proof fn lemma_flushed_is_readable(
    v: StateView,
    contents: Contents,
    to_l0: bool,
    table: TableView,
)
    requires
        v.is_readable(contents),
        !v.sstables.contains_key(table.id),
        is_sound(contents, table),
    ensures
        v.flushed(to_l0, table).is_readable(contents),
{
    let after = v.flushed(to_l0, table);
    assert forall|i: int| 0 <= i < after.l0_sstables.len() implies {
        let id = #[trigger] after.l0_sstables[i];
        &&& after.sstables.contains_key(id)
        &&& after.sstables[id].id == id
        &&& key_le(after.sstables[id].first_key, after.sstables[id].last_key)
    } by {
        let k = if to_l0 {
            i - 1
        } else {
            i
        };
        if k >= 0 {
            assert(after.l0_sstables[i] == v.l0_sstables[k]);
            assert(v.sstables.contains_key(v.l0_sstables[k]));
        }
    }
    assert forall|level: int| 1 <= level <= after.levels.len() implies after.is_sorted_run(
        #[trigger] after.level_ids(level),
    ) by {
        let old_level = if to_l0 {
            level
        } else {
            level - 1
        };
        if old_level >= 1 {
            let ids = v.level_ids(old_level);
            assert(after.level_ids(level) == ids);
            assert(v.is_sorted_run(ids));
            assert forall|i: int| 0 <= i < ids.len() implies after.sstables.contains_key(
                #[trigger] ids[i],
            ) && after.sstables[ids[i]] == v.sstables[ids[i]] by {
                assert(v.sstables.contains_key(ids[i]));
            }
        } else {
            assert(after.level_ids(level) == seq![table.id]);
        }
    }
    assert forall|id: usize, key: Seq<u8>|
        after.sstables.contains_key(id) && #[trigger] contents(id).contains_key(
            key,
        ) implies bytes_le(after.sstables[id].first_key.key, key) && bytes_le(
        key,
        after.sstables[id].last_key.key,
    ) by {
        if id == table.id {
            assert(contents(table.id).contains_key(key));
        } else {
            assert(v.sstables.contains_key(id));
        }
    }
}

} // verus!
