//! What a read gives back after a leveled compaction. It puts its output in the middle of a level,
//! behind tables that a part of its input stood in front of.

use vstd::prelude::*;

use super::contents::{
    lemma_newest_of_concatenation, lemma_read_returns_newest, newest, stands_for, Contents,
};
use super::invariants::{
    are_fresh, lemma_leveled_compaction_keeps_consistent, lemma_leveled_compaction_keeps_disjoint,
    lemma_tier_ids_of_concatenation, lemma_tier_ids_of_one,
};
use super::replacement::{
    is_sound, lemma_replaced_is_readable, lie_within, ranges_are_disjoint,
};
use super::{ids_of, StateView};
use crate::compact::laws::{
    is_disjoint_run, lemma_output_replaces_overlapping, lemma_overlap_in_order,
    lemma_upper_range_in_order, names_what_overlaps, takes_all_overlapping,
};
use crate::compact::leveled::{
    compacted, ends_before, lemma_key_range_covers, overlap_end, overlap_start, starts_up_to,
    task_fits, task_is_live, task_span, upper_range, LevelTaskView,
};
use crate::compact::tiered::tier_ids;
use crate::key::{
    bytes_le, bytes_lt, key_le, lemma_bytes_lt_irreflexive, lemma_bytes_lt_transitive,
    lemma_key_le_transitive, lemma_key_lt_total,
};
use crate::search::lemma_prefix_len;
use crate::table::TableView;

verus! {

/// The task takes its upper tables from above its lower level: from another level, or the earliest
/// of L0.
pub open spec fn takes_from_above(v: StateView, task: LevelTaskView) -> bool {
    match task.upper_level {
        Some(level) => level < task.lower_level,
        None => task.upper_level_sst_ids == v.l0_sstables.skip(
            v.l0_sstables.len() - task.upper_level_sst_ids.len(),
        ),
    }
}

/// The levels between the two levels of the task.
pub open spec fn levels_between(v: StateView, task: LevelTaskView) -> Seq<(usize, Seq<usize>)> {
    let from = match task.upper_level {
        Some(level) => level as int,
        None => 0,
    };
    v.levels.subrange(from, task.lower_level - 1)
}

/// The tables in front of those that the task takes.
pub open spec fn in_front(v: StateView, task: LevelTaskView) -> Seq<usize> {
    match task.upper_level {
        Some(level) => v.l0_sstables + tier_ids(v.levels.take(level - 1)) + v.level_ids(
            level as int,
        ).take(overlap_start(v, level as int, upper_range(v, task).0)),
        None => v.l0_sstables.take(v.l0_sstables.len() - task.upper_level_sst_ids.len()),
    }
}

/// The tables of the upper level behind the one that the task takes.
pub open spec fn beside_upper(v: StateView, task: LevelTaskView) -> Seq<usize> {
    match task.upper_level {
        Some(level) => v.level_ids(level as int).skip(
            overlap_end(v, level as int, upper_range(v, task).1),
        ),
        None => Seq::empty(),
    }
}

/// The tables of the lower level in front of those that the task takes.
pub open spec fn before_lower(v: StateView, task: LevelTaskView) -> Seq<usize> {
    v.level_ids(task.lower_level as int).take(
        overlap_start(v, task.lower_level as int, upper_range(v, task).0),
    )
}

/// The tables between the upper and the lower ones that the task takes.
pub open spec fn in_between(v: StateView, task: LevelTaskView) -> Seq<usize> {
    beside_upper(v, task) + tier_ids(levels_between(v, task)) + before_lower(v, task)
}

/// The tables behind all those that the task takes.
pub open spec fn behind(v: StateView, task: LevelTaskView) -> Seq<usize> {
    v.level_ids(task.lower_level as int).skip(
        overlap_end(v, task.lower_level as int, upper_range(v, task).1),
    ) + tier_ids(v.levels.skip(task.lower_level as int))
}

/// The tables of some tiers, around those of one of them.
proof fn lemma_tier_ids_around(tiers: Seq<(usize, Seq<usize>)>, i: int)
    requires
        0 <= i < tiers.len(),
    ensures
        tier_ids(tiers) == tier_ids(tiers.take(i)) + tiers[i].1 + tier_ids(tiers.skip(i + 1)),
{
    let (a, b, c) = (tiers.take(i), seq![tiers[i]], tiers.skip(i + 1));
    assert(tiers =~= a + b + c);
    lemma_tier_ids_of_concatenation(a + b, c);
    lemma_tier_ids_of_concatenation(a, b);
    lemma_tier_ids_of_one(tiers[i]);
}

/// The tables of a state in the groups that a task from another level makes of them.
proof fn lemma_regroup(
    l0: Seq<usize>,
    p: Seq<usize>,
    x: Seq<usize>,
    u: Seq<usize>,
    y: Seq<usize>,
    m: Seq<usize>,
    h: Seq<usize>,
    l: Seq<usize>,
    t: Seq<usize>,
    r: Seq<usize>,
)
    ensures
        l0 + ((p + (x + u + y) + m) + (h + l + t) + r) == (l0 + p + x) + (u + ((y + m + h) + (l + (t
            + r)))),
{
    let z = h + l + t;
    assert((p + (x + u + y) + m) + z + r =~= p + (x + u + y) + (m + z + r));
    assert(l0 + (p + (x + u + y) + (m + z + r)) =~= (l0 + p + x) + (u + (y + (m + z + r))));
    assert(m + z + r =~= m + (h + (l + (t + r))));
    assert(y + (m + (h + (l + (t + r)))) =~= (y + m + h) + (l + (t + r)));
}

/// The tables of a state in the groups that a task from L0 makes of them.
proof fn lemma_regroup_l0(
    f: Seq<usize>,
    u: Seq<usize>,
    m: Seq<usize>,
    h: Seq<usize>,
    l: Seq<usize>,
    t: Seq<usize>,
    r: Seq<usize>,
)
    ensures
        f + u + (m + (h + l + t) + r) == f + (u + ((m + h) + (l + (t + r)))),
{
    assert(m + (h + l + t) + r =~= (m + h) + (l + (t + r)));
    assert(f + u + ((m + h) + (l + (t + r))) =~= f + (u + ((m + h) + (l + (t + r)))));
}

/// The tables above the lower level of a task that takes a table from another level.
proof fn lemma_upper_level_moves_tables(v: StateView, task: LevelTaskView, output: Seq<usize>)
    requires
        task_fits(v, task),
        task_is_live(v, task),
        names_what_overlaps(v, task),
        takes_from_above(v, task),
        task.upper_level is Some,
    ensures
        ({
            let w = task.lower_level as int;
            let u = task.upper_level->Some_0 as int;
            let ids = v.level_ids(u);
            let x = ids.take(overlap_start(v, u, upper_range(v, task).0));
            let y = ids.skip(overlap_end(v, u, upper_range(v, task).1));
            let p = tier_ids(v.levels.take(u - 1));
            let m = tier_ids(levels_between(v, task));
            &&& tier_ids(v.levels.take(w - 1)) == p + (x + task.upper_level_sst_ids + y) + m
            &&& tier_ids(compacted(v, task, output).levels.take(w - 1)) == p + (x + Seq::<
                usize,
            >::empty() + y) + m
        }),
{
    let after = compacted(v, task, output);
    let w = task.lower_level as int;
    let u = task.upper_level->Some_0 as int;
    let ids = v.level_ids(u);
    let (first, last) = upper_range(v, task);
    lemma_upper_range_in_order(v, task);
    lemma_overlap_in_order(v, u, first, last);
    let (a, b) = (overlap_start(v, u, first), overlap_end(v, u, last));
    assert(ids =~= ids.take(a) + task.upper_level_sst_ids + ids.skip(b));
    let (old_above, new_above) = (v.levels.take(w - 1), after.levels.take(w - 1));
    lemma_tier_ids_around(old_above, u - 1);
    lemma_tier_ids_around(new_above, u - 1);
    assert(old_above.take(u - 1) =~= v.levels.take(u - 1));
    assert(new_above.take(u - 1) =~= v.levels.take(u - 1));
    assert(old_above.skip(u) =~= levels_between(v, task));
    assert(new_above.skip(u) =~= levels_between(v, task));
    assert(new_above[u - 1].1 == ids.take(a) + Seq::<usize>::empty() + ids.skip(b));
}

/// Where the tables of the task and its output stand among the others.
proof fn lemma_leveled_moves_tables(v: StateView, task: LevelTaskView, output: Seq<usize>)
    requires
        task_fits(v, task),
        task_is_live(v, task),
        names_what_overlaps(v, task),
        takes_all_overlapping(v, task),
        takes_from_above(v, task),
    ensures
        v.table_ids() == in_front(v, task) + (task.upper_level_sst_ids + (in_between(v, task) + (
        task.lower_level_sst_ids + behind(v, task)))),
        compacted(v, task, output).table_ids() == in_front(v, task) + (in_between(v, task) + (output
            + behind(v, task))),
{
    let after = compacted(v, task, output);
    let w = task.lower_level as int;
    let ids = v.level_ids(w);
    let (first, last) = upper_range(v, task);
    let (upper, lower) = (task.upper_level_sst_ids, task.lower_level_sst_ids);
    lemma_upper_range_in_order(v, task);
    lemma_output_replaces_overlapping(v, task);
    let (start, end) = (overlap_start(v, w, first), overlap_end(v, w, last));
    let (h, t, r) = (ids.take(start), ids.skip(end), tier_ids(v.levels.skip(w)));
    let m = tier_ids(levels_between(v, task));
    let none = Seq::<usize>::empty();
    assert(ids =~= h + lower + t);
    assert(after.level_ids(w) == h + output + t);
    lemma_tier_ids_around(v.levels, w - 1);
    lemma_tier_ids_around(after.levels, w - 1);
    assert(after.levels.skip(w) =~= v.levels.skip(w));
    match task.upper_level {
        Some(level) => {
            let u = level as int;
            lemma_upper_level_moves_tables(v, task, output);
            let ids_u = v.level_ids(u);
            let (a, b) = (overlap_start(v, u, first), overlap_end(v, u, last));
            let p = tier_ids(v.levels.take(u - 1));
            let (x, y) = (ids_u.take(a), ids_u.skip(b));
            lemma_regroup(v.l0_sstables, p, x, upper, y, m, h, lower, t, r);
            lemma_regroup(v.l0_sstables, p, x, none, y, m, h, output, t, r);
            assert(none + (in_between(v, task) + (output + behind(v, task))) =~= in_between(v, task)
                + (output + behind(v, task)));
        },
        None => {
            let f = in_front(v, task);
            assert(v.levels.take(w - 1) =~= levels_between(v, task));
            assert(after.levels.take(w - 1) =~= levels_between(v, task));
            assert(v.l0_sstables =~= f + upper);
            assert(after.l0_sstables == f);
            lemma_regroup_l0(f, upper, m, h, lower, t, r);
            lemma_regroup_l0(f, none, m, h, output, t, r);
            assert(f + none =~= f);
            assert(none + m + h =~= m + h);
            assert(none + ((m + h) + (output + (t + r))) =~= (m + h) + (output + (t + r)));
        },
    }
}

/// A leveled compaction into sound new tables changes no value whose key its output stands for, as
/// long as no table between the upper and the lower ones holds a key that an upper one holds. It
/// leaves the state readable.
pub proof fn lemma_leveled_compaction_keeps_values(
    v: StateView,
    contents: Contents,
    task: LevelTaskView,
    tables: Seq<TableView>,
    next: int,
    key: Seq<u8>,
)
    requires
        v.is_readable(contents),
        v.is_consistent(next),
        task_fits(v, task),
        task_is_live(v, task),
        names_what_overlaps(v, task),
        takes_all_overlapping(v, task),
        takes_from_above(v, task),
        forall|level: int|
            1 <= level <= v.levels.len() ==> is_disjoint_run(v, #[trigger] v.level_ids(level)),
        are_fresh(v, ids_of(tables), next),
        forall|i: int| 0 <= i < tables.len() ==> is_sound(contents, #[trigger] tables[i]),
        ranges_are_disjoint(tables),
        lie_within(tables, task_span(v, task)),
        newest(contents, task.upper_level_sst_ids, key) is Some ==> newest(
            contents,
            in_between(v, task),
            key,
        ) is None,
        stands_for(
            contents,
            task.upper_level_sst_ids + task.lower_level_sst_ids,
            ids_of(tables),
            behind(v, task),
            key,
        ),
    ensures
        ({
            let after = compacted(v, task, ids_of(tables)).replaced(
                task.upper_level_sst_ids + task.lower_level_sst_ids,
                tables,
            );
            &&& after.is_readable(contents)
            &&& after.value_of(contents, key) == v.value_of(contents, key)
        }),
{
    let (upper, lower) = (task.upper_level_sst_ids, task.lower_level_sst_ids);
    let output = ids_of(tables);
    let after = compacted(v, task, output).replaced(upper + lower, tables);
    lemma_leveled_compaction_keeps_consistent(v, task, tables, next);
    assert forall|level: int| 1 <= level <= after.levels.len() implies after.is_sorted_run(
        #[trigger] after.level_ids(level),
    ) by {
        lemma_leveled_compaction_keeps_disjoint(v, task, tables, next, level);
    }
    assert forall|i: int| 0 <= i < after.l0_sstables.len() implies v.l0_sstables.contains(
        #[trigger] after.l0_sstables[i],
    ) by {
        assert(v.l0_sstables[i] == after.l0_sstables[i]);
    }
    lemma_replaced_is_readable(v, after, contents, upper + lower, tables, next);
    lemma_read_returns_newest(v, contents, key);
    lemma_read_returns_newest(after, contents, key);
    lemma_leveled_moves_tables(v, task, output);
    let memtables = seq![v.memtable] + v.imm_memtables;
    let (front, between, rest) = (in_front(v, task), in_between(v, task), behind(v, task));
    lemma_newest_of_concatenation(contents, memtables, v.table_ids(), key);
    lemma_newest_of_concatenation(contents, memtables, after.table_ids(), key);
    lemma_newest_of_concatenation(contents, front, upper + (between + (lower + rest)), key);
    lemma_newest_of_concatenation(contents, upper, between + (lower + rest), key);
    lemma_newest_of_concatenation(contents, between, lower + rest, key);
    lemma_newest_of_concatenation(contents, lower, rest, key);
    lemma_newest_of_concatenation(contents, front, between + (output + rest), key);
    lemma_newest_of_concatenation(contents, between, output + rest, key);
    lemma_newest_of_concatenation(contents, output, rest, key);
    lemma_newest_of_concatenation(contents, upper, lower, key);
}

/// The range of every table starts and ends with a key of the same timestamp.
pub open spec fn shares_timestamp(v: StateView, ts: u64) -> bool {
    forall|id: usize| #[trigger]
        v.sstables.contains_key(id) ==> v.sstables[id].first_key.ts == ts
            && v.sstables[id].last_key.ts == ts
}

/// What is found in some tables is held by one of them.
pub(crate) proof fn lemma_newest_is_held(contents: Contents, ids: Seq<usize>, key: Seq<u8>)
    ensures
        newest(contents, ids, key) is Some ==> exists|i: int|
            0 <= i < ids.len() && contents(#[trigger] ids[i]).contains_key(key),
    decreases ids.len(),
{
    if ids.len() > 0 {
        let rest = ids.drop_first();
        lemma_newest_is_held(contents, rest, key);
        if contents(ids[0]).contains_key(key) {
        } else if newest(contents, rest, key) is Some {
            let i = choose|i: int|
                0 <= i < rest.len() && contents(#[trigger] rest[i]).contains_key(key);
            assert(rest[i] == ids[i + 1]);
        }
    }
}

/// A key that an upper table of the task holds lies between the keys of the upper tables.
proof fn lemma_upper_key_in_range(
    v: StateView,
    contents: Contents,
    task: LevelTaskView,
    key: Seq<u8>,
    ts: u64,
)
    requires
        v.is_readable(contents),
        task_is_live(v, task),
        shares_timestamp(v, ts),
        newest(contents, task.upper_level_sst_ids, key) is Some,
    ensures
        bytes_le(upper_range(v, task).0.key, key),
        bytes_le(key, upper_range(v, task).1.key),
        upper_range(v, task).0.ts == ts,
        upper_range(v, task).1.ts == ts,
{
    let upper = task.upper_level_sst_ids;
    let (first, last) = upper_range(v, task);
    lemma_newest_is_held(contents, upper, key);
    let i = choose|i: int|
        0 <= i < upper.len() && contents(#[trigger] upper[i]).contains_key(key);
    assert(v.sstables.contains_key(upper[i]));
    let table = v.sstables[upper[i]];
    if task.upper_level is None {
        lemma_key_range_covers(v.sstables, upper);
        let a = choose|a: int|
            0 <= a < upper.len() && first == v.sstables[#[trigger] upper[a]].first_key;
        let b = choose|b: int|
            0 <= b < upper.len() && last == v.sstables[#[trigger] upper[b]].last_key;
        assert(v.sstables.contains_key(upper[a]) && v.sstables.contains_key(upper[b]));
        assert(key_le(first, table.first_key) && key_le(table.last_key, last));
        if bytes_lt(first.key, table.first_key.key) && bytes_lt(table.first_key.key, key) {
            lemma_bytes_lt_transitive(first.key, table.first_key.key, key);
        }
        if bytes_lt(key, table.last_key.key) && bytes_lt(table.last_key.key, last.key) {
            lemma_bytes_lt_transitive(key, table.last_key.key, last.key);
        }
    }
}

/// No key is both at most some byte string and beyond it.
proof fn lemma_not_on_both_sides(key: Seq<u8>, bound: Seq<u8>, other: Seq<u8>)
    requires
        bytes_lt(bound, other),
        bytes_le(other, key),
    ensures
        !bytes_le(key, bound),
{
    lemma_bytes_lt_irreflexive(bound);
    if bytes_lt(other, key) {
        lemma_bytes_lt_transitive(bound, other, key);
    }
    if bytes_lt(key, bound) {
        lemma_bytes_lt_transitive(bound, key, bound);
    }
}

/// Where the ranges of all tables start and end with keys of one timestamp, a key that an upper
/// table of a leveled task holds is held by no table between the upper and the lower ones, unless
/// by one of a level between the two levels of the task.
pub proof fn lemma_nothing_in_between(
    v: StateView,
    contents: Contents,
    task: LevelTaskView,
    key: Seq<u8>,
    ts: u64,
)
    requires
        v.is_readable(contents),
        task_fits(v, task),
        task_is_live(v, task),
        names_what_overlaps(v, task),
        takes_all_overlapping(v, task),
        shares_timestamp(v, ts),
        newest(contents, task.upper_level_sst_ids, key) is Some,
        newest(contents, tier_ids(levels_between(v, task)), key) is None,
    ensures
        newest(contents, in_between(v, task), key) is None,
{
    let w = task.lower_level as int;
    let ids = v.level_ids(w);
    let (first, last) = upper_range(v, task);
    lemma_upper_range_in_order(v, task);
    lemma_upper_key_in_range(v, contents, task, key, ts);
    let (beside, before) = (beside_upper(v, task), before_lower(v, task));
    let inner = tier_ids(levels_between(v, task));
    lemma_newest_of_concatenation(contents, beside + inner, before, key);
    lemma_newest_of_concatenation(contents, beside, inner, key);
    lemma_newest_is_held(contents, beside, key);
    lemma_newest_is_held(contents, before, key);
    if newest(contents, before, key) is Some {
        lemma_overlap_in_order(v, w, first, last);
        lemma_prefix_len(ids, ends_before(v.sstables, first));
        let i = choose|i: int|
            0 <= i < before.len() && contents(#[trigger] before[i]).contains_key(key);
        assert(before[i] == ids[i]);
        assert(ends_before(v.sstables, first)(ids[i]));
        assert(v.sstables.contains_key(ids[i]));
        lemma_not_on_both_sides(key, v.sstables[ids[i]].last_key.key, first.key);
    }
    if newest(contents, beside, key) is Some {
        let u = task.upper_level->Some_0 as int;
        let ids_u = v.level_ids(u);
        lemma_overlap_in_order(v, u, first, last);
        lemma_prefix_len(ids_u, starts_up_to(v.sstables, last));
        let b = overlap_end(v, u, last);
        let i = choose|i: int|
            0 <= i < beside.len() && contents(#[trigger] beside[i]).contains_key(key);
        assert(beside[i] == ids_u[b + i]);
        assert(!starts_up_to(v.sstables, last)(ids_u[b]));
        let (table, other) = (v.sstables[ids_u[b]], v.sstables[ids_u[b + i]]);
        assert(v.sstables.contains_key(ids_u[b + i]));
        lemma_key_lt_total(table.first_key, last);
        if i > 0 {
            assert(key_le(table.first_key, other.first_key));
        }
        lemma_key_le_transitive(last, table.first_key, other.first_key);
        lemma_not_on_both_sides(key, last.key, other.first_key.key);
    }
}

} // verus!
