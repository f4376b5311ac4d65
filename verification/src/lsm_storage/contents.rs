//! What a read gives back: the latest value that was written, whatever has been frozen, flushed and
//! compacted since. On leveled compactions see `leveled_contents`.

use vstd::prelude::*;

use super::invariants::{
    are_fresh, ids_after, ids_before, lemma_flush_keeps_recency, lemma_freeze_prepends,
    lemma_full_compaction_keeps_consistent, lemma_lookup_follows_recency,
    lemma_simple_compaction_keeps_consistent, lemma_simple_replaces_run,
    lemma_tier_ids_of_concatenation, lemma_tier_ids_of_one, lemma_tier_position,
    lemma_tiered_compaction_keeps_consistent, lemma_tiered_replaces_run, lemma_without_suffix,
    levels_stand, tiers_stand, tiers_start,
};
use super::read::{
    ends_below, lemma_above_is_upward, lemma_below_is_downward, lemma_range_is_what_overlaps,
    lemma_sorted_run_is_searchable, live_value, reaches_into, starts_within, LookupView,
};
use super::replacement::{
    are_sound, is_sound, lemma_flushed_is_readable, lemma_level_survives, lemma_output_is_run,
    lemma_replaced_is_readable,
};
use super::{ids_of, StateView};
use crate::compact::leveled::LevelTaskView;
use crate::compact::simple_leveled::simple_compacted;
use crate::compact::tiered::{tier_ids, tiers_after, unused_after, TieredTaskView};
use crate::key::bytes_le;
use crate::search::lemma_prefix_len;
use crate::table::{above_lower, below_upper, BoundView, TableView};

verus! {

/// What the memtable or table with each number holds.
pub type Contents = spec_fn(usize) -> Map<Seq<u8>, Seq<u8>>;

/// What the first of the memtables and tables holds under a key that holds it at all.
pub open spec fn newest(contents: Contents, ids: Seq<usize>, key: Seq<u8>) -> Option<Seq<u8>>
    decreases ids.len(),
{
    if ids.len() == 0 {
        None
    } else if contents(ids[0]).contains_key(key) {
        Some(contents(ids[0])[key])
    } else {
        newest(contents, ids.drop_first(), key)
    }
}

/// The first of the memtables and tables that holds the key holds a deletion of it.
pub open spec fn deletes(contents: Contents, ids: Seq<usize>, key: Seq<u8>) -> bool {
    newest(contents, ids, key) matches Some(value) && value.len() == 0
}

/// The value that something found stands for.
pub open spec fn live(found: Option<Seq<u8>>) -> Option<Seq<u8>> {
    match found {
        Some(value) => live_value(value),
        None => None,
    }
}

impl StateView {
    /// What a step of looking a key up finds. A bloom filter denies no key that its table holds.
    pub open spec fn found(self, contents: Contents, key: Seq<u8>) -> spec_fn(int) -> Option<
        Seq<u8>,
    > {
        |step: int|
            match self.lookup(key, step) {
                LookupView::Memtable(id) => newest(contents, seq![id], key),
                LookupView::Table { table, .. } => newest(contents, seq![table.id], key),
                LookupView::Run(tables) => newest(contents, ids_of(tables), key),
            }
    }

    /// What a read of the key returns.
    pub open spec fn value_of(self, contents: Contents, key: Seq<u8>) -> Option<Seq<u8>> {
        self.get_from(key, self.found(contents, key), 0, None)
    }

    /// The state can be read: the L0 tables are there, the levels are sorted by key range, and each
    /// table holds only keys of its range.
    pub open spec fn is_readable(self, contents: Contents) -> bool {
        &&& self.holds(self.l0_sstables)
        &&& self.levels_sorted()
        &&& forall|id: usize, key: Seq<u8>|
            self.sstables.contains_key(id) && #[trigger] contents(id).contains_key(key)
                ==> bytes_le(self.sstables[id].first_key.key, key) && bytes_le(
                key,
                self.sstables[id].last_key.key,
            )
    }

    /// The numbers that are left to be looked at from a step on.
    spec fn ids_from(self, step: int) -> Seq<usize> {
        let first_level = 1 + self.imm_memtables.len() + self.l0_sstables.len();
        if step < first_level {
            self.recency().skip(step)
        } else {
            tier_ids(self.levels.skip(step - first_level))
        }
    }
}

pub(crate) proof fn lemma_newest_of_concatenation(
    contents: Contents,
    a: Seq<usize>,
    b: Seq<usize>,
    key: Seq<u8>,
)
    ensures
        newest(contents, a + b, key) == (match newest(contents, a, key) {
            Some(value) => Some(value),
            None => newest(contents, b, key),
        }),
    decreases a.len(),
{
    if a.len() == 0 {
        assert(a + b =~= b);
    } else {
        assert((a + b).drop_first() =~= a.drop_first() + b);
        lemma_newest_of_concatenation(contents, a.drop_first(), b, key);
    }
}

pub(crate) proof fn lemma_newest_of_filter(
    contents: Contents,
    ids: Seq<usize>,
    p: spec_fn(usize) -> bool,
    key: Seq<u8>,
)
    requires
        forall|i: int|
            0 <= i < ids.len() && contents(#[trigger] ids[i]).contains_key(key) ==> p(ids[i]),
    ensures
        newest(contents, ids.filter(p), key) == newest(contents, ids, key),
    decreases ids.len(),
{
    reveal(Seq::filter);
    if ids.len() > 0 {
        let front = ids.drop_last();
        let last = seq![ids.last()];
        assert forall|i: int|
            0 <= i < front.len() && contents(#[trigger] front[i]).contains_key(key) implies p(
            front[i],
        ) by {
            assert(front[i] == ids[i]);
        }
        lemma_newest_of_filter(contents, front, p, key);
        assert(ids =~= front + last);
        lemma_newest_of_concatenation(contents, front, last, key);
        if p(ids.last()) {
            assert(ids.filter(p) =~= front.filter(p) + last);
            lemma_newest_of_concatenation(contents, front.filter(p), last, key);
        } else {
            assert(!contents(ids[ids.len() - 1]).contains_key(key));
            assert(last.drop_first() =~= Seq::empty());
            assert(newest(contents, last.drop_first(), key) is None);
        }
    }
}

/// A table that holds a key within some bounds reaches into them.
pub(crate) proof fn lemma_holder_reaches_into(
    v: StateView,
    contents: Contents,
    lower: BoundView,
    upper: BoundView,
    key: Seq<u8>,
    id: usize,
)
    requires
        v.is_readable(contents),
        above_lower(key, lower),
        below_upper(key, upper),
        v.sstables.contains_key(id),
        contents(id).contains_key(key),
    ensures
        reaches_into(v.sstables, lower, upper)(id),
{
    lemma_above_is_upward(key, v.sstables[id].last_key.key, lower);
    lemma_below_is_downward(v.sstables[id].first_key.key, key, upper);
}

/// Of a sorted level only the tables that reach into some bounds can hold a key within them.
pub(crate) proof fn lemma_run_finds_newest(
    v: StateView,
    contents: Contents,
    lower: BoundView,
    upper: BoundView,
    key: Seq<u8>,
    level: int,
)
    requires
        v.is_readable(contents),
        above_lower(key, lower),
        below_upper(key, upper),
        1 <= level <= v.levels.len(),
    ensures
        ({
            let range = v.range_of(v.level_ids(level), lower, upper);
            newest(contents, ids_of(v.tables_of(range)), key) == newest(
                contents,
                v.level_ids(level),
                key,
            )
        }),
{
    let ids = v.level_ids(level);
    let p = reaches_into(v.sstables, lower, upper);
    assert(v.is_sorted_run(ids));
    lemma_sorted_run_is_searchable(v, ids, lower, upper, key);
    lemma_range_is_what_overlaps(v, ids, lower, upper);
    assert forall|i: int|
        0 <= i < ids.len() && contents(#[trigger] ids[i]).contains_key(key) implies p(ids[i]) by {
        assert(v.sstables.contains_key(ids[i]));
        lemma_holder_reaches_into(v, contents, lower, upper, key, ids[i]);
    }
    lemma_newest_of_filter(contents, ids, p, key);
    let range = v.range_of(ids, lower, upper);
    let start = v.range_start(ids, lower);
    lemma_prefix_len(ids, ends_below(v.sstables, lower));
    lemma_prefix_len(ids, starts_within(v.sstables, upper));
    assert forall|i: int| 0 <= i < range.len() implies ids_of(v.tables_of(range))[i]
        == #[trigger] range[i] by {
        assert(range[i] == ids[start + i]);
        assert(v.sstables[ids[start + i]].id == ids[start + i]);
    }
    assert(ids_of(v.tables_of(range)) =~= range);
}

proof fn lemma_step_finds_newest(v: StateView, contents: Contents, key: Seq<u8>, step: int)
    requires
        v.is_readable(contents),
        0 <= step < v.lookup_count(),
    ensures
        newest(contents, v.ids_from(step), key) == (match v.found(contents, key)(step) {
            Some(value) => Some(value),
            None => newest(contents, v.ids_from(step + 1), key),
        }),
{
    let first_level = 1 + v.imm_memtables.len() + v.l0_sstables.len();
    if step < first_level {
        lemma_lookup_follows_recency(v, key, step);
        let id = v.recency()[step];
        assert(v.levels.skip(0) =~= v.levels);
        assert(v.recency().skip(first_level as int) =~= tier_ids(v.levels));
        assert(v.ids_from(step) =~= seq![id] + v.ids_from(step + 1));
        lemma_newest_of_concatenation(contents, seq![id], v.ids_from(step + 1), key);
    } else {
        let k = step - first_level;
        let rest = v.levels.skip(k + 1);
        assert(v.levels.skip(k) =~= seq![v.levels[k]] + rest);
        lemma_tier_ids_of_concatenation(seq![v.levels[k]], rest);
        lemma_tier_ids_of_one(v.levels[k]);
        lemma_newest_of_concatenation(contents, v.level_ids(k + 1), tier_ids(rest), key);
        let bound = BoundView::Included(key);
        lemma_run_finds_newest(v, contents, bound, bound, key, k + 1);
    }
}

proof fn lemma_get_from_step(v: StateView, contents: Contents, key: Seq<u8>, step: int)
    requires
        v.is_readable(contents),
        0 <= step <= v.lookup_count(),
    ensures
        v.get_from(key, v.found(contents, key), step, None) == live(
            newest(contents, v.ids_from(step), key),
        ),
    decreases v.lookup_count() - step,
{
    let found = v.found(contents, key);
    if step == v.lookup_count() {
        assert(v.levels.skip(v.levels.len() as int) =~= Seq::empty());
        assert(v.ids_from(step) =~= Seq::empty());
    } else {
        lemma_step_finds_newest(v, contents, key, step);
        lemma_get_from_step(v, contents, key, step + 1);
        assert(v.get_from(key, found, step, None) == v.get_from(
            key,
            found,
            step + 1,
            found(step),
        ));
    }
}

/// A read returns the value that the latest of all memtables and tables holds, in the order of
/// `recency`, though only those tables of a level are looked at whose range holds the key. An empty
/// value stands for a deleted key.
pub proof fn lemma_read_returns_newest(v: StateView, contents: Contents, key: Seq<u8>)
    requires
        v.is_readable(contents),
    ensures
        v.value_of(contents, key) == live(newest(contents, v.recency(), key)),
{
    lemma_get_from_step(v, contents, key, 0);
    assert(v.recency().skip(0) =~= v.recency());
}

/// The contents after a write to the current memtable.
pub open spec fn written(
    v: StateView,
    contents: Contents,
    key: Seq<u8>,
    value: Seq<u8>,
) -> Contents {
    |id: usize|
        if id == v.memtable {
            contents(id).insert(key, value)
        } else {
            contents(id)
        }
}

/// A read gives back what was written last, nothing if that was an empty value, and other keys keep
/// their values. The current memtable is not a table and not immutable.
pub proof fn lemma_read_gives_back_write(
    v: StateView,
    contents: Contents,
    key: Seq<u8>,
    value: Seq<u8>,
    other: Seq<u8>,
)
    requires
        v.is_readable(contents),
        v.recency().no_duplicates(),
        !v.sstables.contains_key(v.memtable),
    ensures
        v.value_of(written(v, contents, key, value), key) == live_value(value),
        other != key ==> v.value_of(written(v, contents, key, value), other) == v.value_of(
            contents,
            other,
        ),
{
    let after = written(v, contents, key, value);
    assert(v.is_readable(after)) by {
        assert forall|id: usize, k: Seq<u8>|
            v.sstables.contains_key(id) && #[trigger] after(id).contains_key(k) implies bytes_le(
            v.sstables[id].first_key.key,
            k,
        ) && bytes_le(k, v.sstables[id].last_key.key) by {
            assert(contents(id).contains_key(k));
        }
    }
    lemma_read_returns_newest(v, after, key);
    lemma_read_returns_newest(v, after, other);
    lemma_read_returns_newest(v, contents, other);
    assert(v.recency()[0] == v.memtable);
    if other != key {
        lemma_newest_of_same(contents, after, v.recency(), other);
    }
}

proof fn lemma_newest_of_same(a: Contents, b: Contents, ids: Seq<usize>, key: Seq<u8>)
    requires
        forall|i: int|
            0 <= i < ids.len() ==> a(#[trigger] ids[i]).contains_key(key) == b(
                ids[i],
            ).contains_key(key) && (a(ids[i]).contains_key(key) ==> a(ids[i])[key] == b(
                ids[i],
            )[key]),
    ensures
        newest(a, ids, key) == newest(b, ids, key),
    decreases ids.len(),
{
    if ids.len() > 0 {
        let rest = ids.drop_first();
        assert(a(ids[0]).contains_key(key) == b(ids[0]).contains_key(key));
        assert forall|i: int| 0 <= i < rest.len() implies a(#[trigger] rest[i]).contains_key(key)
            == b(rest[i]).contains_key(key) && (a(rest[i]).contains_key(key) ==> a(rest[i])[key]
            == b(rest[i])[key]) by {
            assert(rest[i] == ids[i + 1]);
        }
        lemma_newest_of_same(a, b, rest, key);
    }
}

/// Freezing the current memtable changes no value: the new one holds nothing.
pub proof fn lemma_freeze_keeps_values(v: StateView, contents: Contents, id: usize, key: Seq<u8>)
    requires
        v.is_readable(contents),
        contents(id) == Map::<Seq<u8>, Seq<u8>>::empty(),
    ensures
        v.frozen(id).is_readable(contents),
        v.frozen(id).value_of(contents, key) == v.value_of(contents, key),
{
    let after = v.frozen(id);
    assert(after.is_readable(contents)) by {
        assert forall|level: int| 1 <= level <= after.levels.len() implies after.is_sorted_run(
            #[trigger] after.level_ids(level),
        ) by {
            assert(v.is_sorted_run(v.level_ids(level)));
        }
    }
    lemma_read_returns_newest(v, contents, key);
    lemma_read_returns_newest(after, contents, key);
    lemma_freeze_prepends(v, id);
    lemma_newest_of_concatenation(contents, seq![id], v.recency(), key);
    assert(seq![id].drop_first() =~= Seq::empty());
    assert(newest(contents, seq![id].drop_first(), key) is None);
}

/// Flushing the earliest memtable to a new table changes no value: the table holds what the
/// memtable held. The state stays readable.
pub proof fn lemma_flush_keeps_values(
    v: StateView,
    contents: Contents,
    to_l0: bool,
    table: TableView,
    key: Seq<u8>,
)
    requires
        v.is_readable(contents),
        v.imm_memtables.len() > 0,
        table.id == v.imm_memtables.last(),
        to_l0 || v.l0_sstables.len() == 0,
        !v.sstables.contains_key(table.id),
        is_sound(contents, table),
    ensures
        v.flushed(to_l0, table).is_readable(contents),
        v.flushed(to_l0, table).value_of(contents, key) == v.value_of(contents, key),
{
    lemma_flushed_is_readable(v, contents, to_l0, table);
    lemma_read_returns_newest(v, contents, key);
    lemma_read_returns_newest(v.flushed(to_l0, table), contents, key);
    lemma_flush_keeps_recency(v, to_l0, table);
}

/// The output of a compaction stands for its input under a key: it holds the same, or nothing in
/// place of a deletion if nothing older holds the key.
pub open spec fn stands_for(
    contents: Contents,
    gone: Seq<usize>,
    output: Seq<usize>,
    older: Seq<usize>,
    key: Seq<u8>,
) -> bool {
    ||| newest(contents, output, key) == newest(contents, gone, key)
    ||| {
        &&& newest(contents, output, key) is None
        &&& live(newest(contents, gone, key)) is None
        &&& newest(contents, older, key) is None
    }
}

/// Replacing a run of tables by others that stand for them changes no value.
proof fn lemma_replacing_keeps_values(
    v: StateView,
    after: StateView,
    contents: Contents,
    a: Seq<usize>,
    gone: Seq<usize>,
    output: Seq<usize>,
    b: Seq<usize>,
    key: Seq<u8>,
)
    requires
        v.is_readable(contents),
        after.is_readable(contents),
        after.memtable == v.memtable,
        after.imm_memtables == v.imm_memtables,
        v.table_ids() == a + gone + b,
        after.table_ids() == a + output + b,
        stands_for(contents, gone, output, b, key),
    ensures
        after.value_of(contents, key) == v.value_of(contents, key),
{
    let before = seq![v.memtable] + v.imm_memtables;
    lemma_read_returns_newest(v, contents, key);
    lemma_read_returns_newest(after, contents, key);
    assert(v.recency() =~= before + a + (gone + b));
    assert(after.recency() =~= before + a + (output + b));
    lemma_newest_of_concatenation(contents, before + a, gone + b, key);
    lemma_newest_of_concatenation(contents, before + a, output + b, key);
    lemma_newest_of_concatenation(contents, gone, b, key);
    lemma_newest_of_concatenation(contents, output, b, key);
}

/// A full compaction into sound new tables changes no value whose key its output stands for, and
/// leaves the state readable. At the bottom of the tree, where no other level holds the key, the
/// output may leave deletions out.
pub proof fn lemma_full_compaction_keeps_values(
    v: StateView,
    contents: Contents,
    l0: Seq<usize>,
    tables: Seq<TableView>,
    next: int,
    key: Seq<u8>,
)
    requires
        v.is_readable(contents),
        v.is_consistent(next),
        v.levels.len() > 0,
        l0.len() <= v.l0_sstables.len(),
        l0 == v.l0_sstables.skip(v.l0_sstables.len() - l0.len()),
        are_fresh(v, ids_of(tables), next),
        are_sound(contents, tables),
        stands_for(
            contents,
            l0 + v.level_ids(1),
            ids_of(tables),
            tier_ids(v.levels.skip(1)),
            key,
        ),
    ensures
        v.fully_compacted(l0, v.level_ids(1), tables).is_readable(contents),
        v.fully_compacted(l0, v.level_ids(1), tables).value_of(contents, key) == v.value_of(
            contents,
            key,
        ),
{
    let after = v.fully_compacted(l0, v.level_ids(1), tables);
    let gone = l0 + v.level_ids(1);
    let rest = v.levels.skip(1);
    let newer = v.l0_sstables.take(v.l0_sstables.len() - l0.len());
    let first = (v.levels[0].0, ids_of(tables));
    lemma_full_compaction_keeps_consistent(v, l0, tables, next);
    lemma_output_is_run(v, after, gone, tables);
    assert forall|level: int| 1 <= level <= after.levels.len() implies after.is_sorted_run(
        #[trigger] after.level_ids(level),
    ) by {
        if level > 1 {
            assert(v.is_sorted_run(v.level_ids(level)));
            lemma_level_survives(v, after, gone, tables, next, level, level);
        }
    }
    assert forall|i: int| 0 <= i < after.l0_sstables.len() implies v.l0_sstables.contains(
        #[trigger] after.l0_sstables[i],
    ) by {
        assert(v.l0_sstables[i] == after.l0_sstables[i]);
    }
    lemma_replaced_is_readable(v, after, contents, gone, tables, next);
    assert(v.levels =~= seq![v.levels[0]] + rest);
    assert(after.levels =~= seq![first] + rest);
    lemma_tier_ids_of_concatenation(seq![v.levels[0]], rest);
    lemma_tier_ids_of_concatenation(seq![first], rest);
    lemma_tier_ids_of_one(v.levels[0]);
    lemma_tier_ids_of_one(first);
    assert(v.l0_sstables =~= newer + l0);
    assert(v.table_ids() =~= newer + gone + tier_ids(rest));
    assert(after.table_ids() =~= newer + ids_of(tables) + tier_ids(rest));
    lemma_replacing_keeps_values(
        v,
        after,
        contents,
        newer,
        gone,
        ids_of(tables),
        tier_ids(rest),
        key,
    );
}

/// A tiered compaction into sound new tables changes no value whose key its output stands for, and
/// leaves the state readable.
pub proof fn lemma_tiered_compaction_keeps_values(
    v: StateView,
    contents: Contents,
    task: TieredTaskView,
    tables: Seq<TableView>,
    next: int,
    key: Seq<u8>,
)
    requires
        v.is_readable(contents),
        v.is_consistent(next),
        tables.len() > 0,
        tiers_stand(v, task),
        are_fresh(v, ids_of(tables), next),
        are_sound(contents, tables),
        stands_for(
            contents,
            unused_after(v.levels, task),
            ids_of(tables),
            tier_ids(v.levels.skip(tiers_start(v, task) + task.tiers.len())),
            key,
        ),
    ensures
        ({
            let after = (StateView {
                levels: tiers_after(v.levels, task, ids_of(tables)),
                ..v
            }).replaced(unused_after(v.levels, task), tables);
            &&& after.is_readable(contents)
            &&& after.value_of(contents, key) == v.value_of(contents, key)
        }),
{
    let gone = unused_after(v.levels, task);
    let output = ids_of(tables);
    let after = (StateView { levels: tiers_after(v.levels, task, output), ..v }).replaced(
        gone,
        tables,
    );
    let pos = tiers_start(v, task);
    let k = task.tiers.len() as int;
    if !task.bottom_tier_included {
        lemma_tier_position(v.levels, task.tiers[0].0);
    }
    lemma_tiered_compaction_keeps_consistent(v, task, tables, next);
    lemma_output_is_run(v, after, gone, tables);
    assert(after.levels =~= v.levels.take(pos) + seq![(output[0], output)] + v.levels.skip(
        pos + k,
    ));
    assert forall|level: int| 1 <= level <= after.levels.len() implies after.is_sorted_run(
        #[trigger] after.level_ids(level),
    ) by {
        if level != pos + 1 {
            let old_level = if level <= pos {
                level
            } else {
                level - 1 + k
            };
            assert(after.level_ids(level) == v.level_ids(old_level));
            assert(v.is_sorted_run(v.level_ids(old_level)));
            lemma_level_survives(v, after, gone, tables, next, old_level, level);
        }
    }
    assert forall|i: int| 0 <= i < after.l0_sstables.len() implies v.l0_sstables.contains(
        #[trigger] after.l0_sstables[i],
    ) by {
        assert(v.l0_sstables[i] == after.l0_sstables[i]);
    }
    lemma_replaced_is_readable(v, after, contents, gone, tables, next);
    lemma_tiered_replaces_run(v, task, output);
    lemma_replacing_keeps_values(
        v,
        after,
        contents,
        v.l0_sstables + tier_ids(v.levels.take(pos)),
        gone,
        output,
        tier_ids(v.levels.skip(pos + k)),
        key,
    );
}

/// A simple leveled compaction into sound new tables changes no value whose key its output stands
/// for, and leaves the state readable.
pub proof fn lemma_simple_compaction_keeps_values(
    v: StateView,
    contents: Contents,
    task: LevelTaskView,
    tables: Seq<TableView>,
    next: int,
    key: Seq<u8>,
)
    requires
        v.is_readable(contents),
        v.is_consistent(next),
        levels_stand(v, task),
        are_fresh(v, ids_of(tables), next),
        are_sound(contents, tables),
        stands_for(
            contents,
            task.upper_level_sst_ids + task.lower_level_sst_ids,
            ids_of(tables),
            ids_after(v, task),
            key,
        ),
    ensures
        ({
            let after = simple_compacted(v, task, ids_of(tables)).replaced(
                task.upper_level_sst_ids + task.lower_level_sst_ids,
                tables,
            );
            &&& after.is_readable(contents)
            &&& after.value_of(contents, key) == v.value_of(contents, key)
        }),
{
    let gone = task.upper_level_sst_ids + task.lower_level_sst_ids;
    let after = simple_compacted(v, task, ids_of(tables)).replaced(gone, tables);
    lemma_simple_compaction_keeps_consistent(v, task, tables, next);
    lemma_output_is_run(v, after, gone, tables);
    assert forall|level: int| 1 <= level <= after.levels.len() implies after.is_sorted_run(
        #[trigger] after.level_ids(level),
    ) by {
        if level == task.lower_level {
            assert(after.level_ids(level) == ids_of(tables));
        } else if task.upper_level is Some && level == task.upper_level->Some_0 {
            assert(after.level_ids(level) == Seq::<usize>::empty());
        } else {
            assert(after.level_ids(level) == v.level_ids(level));
            assert(v.is_sorted_run(v.level_ids(level)));
            lemma_level_survives(v, after, gone, tables, next, level, level);
        }
    }
    if task.upper_level is None {
        let newer = v.l0_sstables.take(v.l0_sstables.len() - task.upper_level_sst_ids.len());
        assert(v.l0_sstables =~= newer + task.upper_level_sst_ids);
        lemma_without_suffix(v, newer, task.upper_level_sst_ids);
        assert(after.l0_sstables == newer);
    }
    assert forall|i: int| 0 <= i < after.l0_sstables.len() implies v.l0_sstables.contains(
        #[trigger] after.l0_sstables[i],
    ) by {
        assert(v.l0_sstables[i] == after.l0_sstables[i]);
    }
    lemma_replaced_is_readable(v, after, contents, gone, tables, next);
    lemma_simple_replaces_run(v, task, ids_of(tables));
    lemma_replacing_keeps_values(
        v,
        after,
        contents,
        ids_before(v, task),
        gone,
        ids_of(tables),
        ids_after(v, task),
        key,
    );
}

} // verus!
