//! Which compaction comes next: what the tasks of each strategy take, in terms of the sizes and the
//! key ranges of the tables alone.

use vstd::arithmetic::power2::pow2;
use vstd::prelude::*;

use super::laws::{lemma_key_le_total, lemma_overlap_in_order};
use super::leveled::{
    base_level, base_level_from, compacted_before, ends_before, exceeds_target, greatest_last_key,
    is_chosen_level, is_oldest, least_first_key, lemma_key_range_covers, level_size, overlap_end,
    overlap_start, overlapping, priority_lt, starts_up_to, target_size, total_size, LevelTaskView,
    LeveledCompactionController, LeveledCompactionOptions,
};
use super::simple_leveled::{
    level_is_due, ratio_below, run_ids, simple_task_from, whole_level_task,
    SimpleLeveledCompactionOptions,
};
use super::tiered::{
    amplification_reaches, first_too_large, ratio_within, table_count, tier_within, tiered_task,
    TieredCompactionOptions, TieredTaskView,
};
use crate::double::{
    double_le, double_of, lemma_double_le_total, over_100, rounded, times_100, MIN_SIGNIFICAND,
};
use crate::key::{
    key_le, lemma_key_le_transitive, lemma_key_lt_irreflexive, lemma_key_lt_total, KeyView,
};
use crate::lsm_storage::read::lemma_filter_of_subrange;
use crate::lsm_storage::StateView;
use crate::rounding::{
    lemma_equal_quotients_round_alike, lemma_over_100_of_whole, lemma_rounding_is_exact,
    lemma_rounding_is_monotone, lemma_rounding_separates, lemma_times_100_of_whole,
    lemma_times_100_tells_side,
};
use crate::search::lemma_prefix_len;
use crate::table::TableView;

verus! {

/// The bytes that the tables of a level hold together.
pub open spec fn held(v: StateView, level: int) -> int {
    v.levels[level - 1].1.fold_left(0int, |sum: int, id: usize| sum + v.sstables[id].size)
}

pub(crate) proof fn lemma_held(tables: Map<usize, TableView>, ids: Seq<usize>)
    ensures
        ids.fold_left(0int, |sum: int, id: usize| sum + tables[id].size) == total_size(tables, ids),
    decreases ids.len(),
{
    if ids.len() > 0 {
        lemma_held(tables, ids.drop_last());
    }
}

/// The sizes that the levels should have: the last one what it holds, but no less than the base
/// size, and each other one the next one's size over the multiplier.
pub open spec fn are_targets(v: StateView, o: LeveledCompactionOptions, targets: Seq<int>) -> bool {
    let n = v.levels.len() as int;
    let base = o.base_level_size_mb * 1024 * 1024;
    &&& targets.len() == n
    &&& targets[n - 1] == (if held(v, n) >= base {
        held(v, n)
    } else {
        base
    })
    &&& forall|i: int, j: int|
        0 <= i && j == i + 1 && j < n ==> #[trigger] targets[i] == (#[trigger] targets[j])
            / (o.level_size_multiplier as int)
}

proof fn lemma_targets(v: StateView, o: LeveledCompactionOptions, targets: Seq<int>, level: int)
    requires
        are_targets(v, o, targets),
        o.level_size_multiplier > 0,
        1 <= level <= v.levels.len(),
    ensures
        targets[level - 1] == target_size(v, o, level),
        held(v, level) == level_size(v, level),
    decreases v.levels.len() - level,
{
    let n = v.levels.len() as int;
    lemma_held(v.sstables, v.levels[level - 1].1);
    if level < n {
        lemma_targets(v, o, targets, level + 1);
        assert(targets[level - 1] == targets[level] / (o.level_size_multiplier as int));
    }
}

/// The key range of the table meets the keys from the least to the greatest of some other tables.
pub open spec fn meets(v: StateView, id: usize, others: Seq<usize>) -> bool {
    &&& exists|i: int|
        0 <= i < others.len() && key_le(
            v.sstables[#[trigger] others[i]].first_key,
            v.sstables[id].last_key,
        )
    &&& exists|i: int|
        0 <= i < others.len() && key_le(
            v.sstables[id].first_key,
            v.sstables[#[trigger] others[i]].last_key,
        )
}

/// The tables that overlap a range of keys are those of the level, in its order, that meet it.
proof fn lemma_overlapping_meets(
    v: StateView,
    level: int,
    first: KeyView,
    last: KeyView,
    others: Seq<usize>,
)
    requires
        v.is_sorted_run(v.level_ids(level)),
        key_le(first, last),
        others.len() > 0,
        forall|i: int|
            0 <= i < others.len() ==> key_le(first, v.sstables[#[trigger] others[i]].first_key),
        forall|i: int|
            0 <= i < others.len() ==> key_le(v.sstables[#[trigger] others[i]].last_key, last),
        exists|i: int| 0 <= i < others.len() && first == v.sstables[#[trigger] others[i]].first_key,
        exists|i: int| 0 <= i < others.len() && last == v.sstables[#[trigger] others[i]].last_key,
    ensures
        overlapping(v, level, first, last) == v.level_ids(level).filter(
            |id: usize| meets(v, id, others),
        ),
{
    let ids = v.level_ids(level);
    let tables = v.sstables;
    let p = |id: usize| meets(v, id, others);
    let (ends, starts) = (ends_before(tables, first), starts_up_to(tables, last));
    lemma_overlap_in_order(v, level, first, last);
    lemma_prefix_len(ids, ends);
    lemma_prefix_len(ids, starts);
    let (start, end) = (overlap_start(v, level, first), overlap_end(v, level, last));
    let a = choose|i: int| 0 <= i < others.len() && first == tables[#[trigger] others[i]].first_key;
    let b = choose|i: int| 0 <= i < others.len() && last == tables[#[trigger] others[i]].last_key;
    assert forall|i: int| 0 <= i < ids.len() implies p(#[trigger] ids[i]) == (start <= i < end) by {
        let table = tables[ids[i]];
        lemma_key_le_total(first, table.last_key);
        lemma_key_le_total(table.first_key, last);
        if i < start {
            assert(ends(ids[i]));
            if p(ids[i]) {
                let k = choose|k: int|
                    0 <= k < others.len() && key_le(
                        tables[#[trigger] others[k]].first_key,
                        table.last_key,
                    );
                lemma_key_le_transitive(first, tables[others[k]].first_key, table.last_key);
                lemma_key_lt_total(first, table.last_key);
                lemma_key_lt_irreflexive(first);
            }
        } else {
            assert(!ends(ids[start]));
            let at = tables[ids[start]];
            lemma_key_lt_total(at.last_key, first);
            if start < i {
                assert(key_le(at.last_key, table.last_key));
            }
            lemma_key_le_transitive(first, at.last_key, table.last_key);
            assert(key_le(tables[others[a]].first_key, table.last_key));
        }
        if i < end {
            assert(starts(ids[i]));
            assert(key_le(table.first_key, tables[others[b]].last_key));
        } else {
            assert(!starts(ids[end]));
            let at = tables[ids[end]];
            if end < i {
                assert(key_le(at.first_key, table.first_key));
            }
            if p(ids[i]) {
                let k = choose|k: int|
                    0 <= k < others.len() && key_le(
                        table.first_key,
                        tables[#[trigger] others[k]].last_key,
                    );
                lemma_key_le_transitive(table.first_key, tables[others[k]].last_key, last);
                lemma_key_le_transitive(at.first_key, table.first_key, last);
            }
        }
    }
    lemma_filter_of_subrange(ids, p, start, end);
}

proof fn lemma_base_level(v: StateView, o: LeveledCompactionOptions, level: int)
    requires
        1 <= level <= v.levels.len(),
    ensures
        ({
            let base = base_level_from(v, o, level);
            &&& 1 <= base <= level
            &&& base == 1 || target_size(v, o, base) <= o.base_size()
            &&& forall|k: int| base < k <= level ==> #[trigger] target_size(v, o, k) > o.base_size()
        }),
    decreases level,
{
    if level > 1 && !(target_size(v, o, level) <= o.base_size()) {
        lemma_base_level(v, o, level - 1);
    }
}

/// The level is the one that L0 goes into, or lies below it: every level below it should be larger
/// than the base size.
pub open spec fn is_in_use(o: LeveledCompactionOptions, targets: Seq<int>, level: int) -> bool {
    forall|k: int|
        level < k <= targets.len() ==> #[trigger] targets[k - 1] > o.base_level_size_mb * 1024
            * 1024
}

/// The level is to be compacted into the next one: it is in use, not the last one, and holds more
/// than it should.
pub open spec fn is_over(
    v: StateView,
    o: LeveledCompactionOptions,
    targets: Seq<int>,
    level: int,
) -> bool {
    &&& 1 <= level < v.levels.len()
    &&& is_in_use(o, targets, level)
    &&& held(v, level) > targets[level - 1]
}

proof fn lemma_is_over(v: StateView, o: LeveledCompactionOptions, targets: Seq<int>, level: int)
    requires
        are_targets(v, o, targets),
        o.level_size_multiplier > 0,
        1 <= v.levels.len(),
    ensures
        is_over(v, o, targets, level) == exceeds_target(v, o, level),
        1 <= level <= v.levels.len() ==> is_in_use(o, targets, level) == (base_level(v, o)
            <= level),
{
    let n = v.levels.len() as int;
    let base = base_level(v, o);
    lemma_base_level(v, o, n);
    assert forall|k: int| 1 <= k <= n implies #[trigger] targets[k - 1] == target_size(
        v,
        o,
        k,
    ) by {
        lemma_targets(v, o, targets, k);
    }
    if 1 <= level <= n {
        lemma_targets(v, o, targets, level);
        if base <= level {
            assert forall|k: int| level < k <= targets.len() implies #[trigger] targets[k - 1]
                > o.base_level_size_mb * 1024 * 1024 by {
                assert(targets[k - 1] == target_size(v, o, k));
                assert(target_size(v, o, k) > o.base_size());
            }
        } else {
            assert(targets[base - 1] == target_size(v, o, base));
        }
    }
}

/// Once there are as many L0 tables as the trigger says, a task takes all of L0, in order, into
/// the level in use that is nearest to L0, with the tables of that level that meet L0, and no
/// others. It is marked as reaching the bottom when this is the last level but one.
pub proof fn lemma_l0_goes_down_as_a_whole(
    controller: LeveledCompactionController,
    v: StateView,
    task: Option<LevelTaskView>,
    targets: Seq<int>,
)
    requires
        controller.can_generate(v),
        controller.generates(v, task),
        v.l0_sstables.len() >= controller.options().level0_file_num_compaction_trigger,
        are_targets(v, controller.options(), targets),
    ensures
        ({
            let o = controller.options();
            &&& task matches Some(task) && {
                let lower = task.lower_level as int;
                &&& task.upper_level is None
                &&& task.upper_level_sst_ids == v.l0_sstables
                &&& 1 <= lower <= v.levels.len()
                &&& is_in_use(o, targets, lower)
                &&& lower == 1 || targets[lower - 1] <= o.base_level_size_mb * 1024 * 1024
                &&& task.lower_level_sst_ids == v.levels[lower - 1].1.filter(
                    |id: usize| meets(v, id, v.l0_sstables),
                )
                &&& task.is_lower_level_bottom_level == (lower == v.levels.len() - 1)
            }
        }),
{
    let o = controller.options();
    let n = v.levels.len() as int;
    let base = base_level(v, o);
    lemma_base_level(v, o, n);
    lemma_is_over(v, o, targets, base);
    lemma_targets(v, o, targets, base);
    let (first, last) = (
        least_first_key(v.sstables, v.l0_sstables),
        greatest_last_key(v.sstables, v.l0_sstables),
    );
    lemma_key_range_covers(v.sstables, v.l0_sstables);
    let table = v.sstables[v.l0_sstables[0]];
    lemma_key_le_transitive(first, table.first_key, table.last_key);
    lemma_key_le_transitive(first, table.last_key, last);
    assert(v.is_sorted_run(v.level_ids(base)));
    lemma_overlapping_meets(v, base, first, last, v.l0_sstables);
}

/// Where there are fewer L0 tables than the trigger says, there is a task if and only if some level
/// holds more than it should. It takes the table with the least id of such a level into the next
/// level, with the tables of that level that it meets, and no others.
pub proof fn lemma_level_gives_its_oldest_table(
    controller: LeveledCompactionController,
    v: StateView,
    task: Option<LevelTaskView>,
    targets: Seq<int>,
)
    requires
        controller.can_generate(v),
        controller.generates(v, task),
        v.l0_sstables.len() < controller.options().level0_file_num_compaction_trigger,
        are_targets(v, controller.options(), targets),
    ensures
        ({
            let o = controller.options();
            match task {
                None => forall|level: int| !#[trigger] is_over(v, o, targets, level),
                Some(task) => {
                    let upper = task.upper_level->Some_0 as int;
                    let ids = v.levels[upper - 1].1;
                    let id = task.upper_level_sst_ids[0];
                    &&& task.upper_level is Some
                    &&& is_over(v, o, targets, upper)
                    &&& task.upper_level_sst_ids == seq![id]
                    &&& ids.contains(id)
                    &&& forall|i: int| 0 <= i < ids.len() ==> id <= #[trigger] ids[i]
                    &&& task.lower_level == upper + 1
                    &&& task.lower_level_sst_ids == v.levels[upper].1.filter(
                        |other: usize| meets(v, other, seq![id]),
                    )
                    &&& task.is_lower_level_bottom_level == (upper + 1 == v.levels.len())
                },
            }
        }),
{
    let o = controller.options();
    match task {
        None => {
            assert forall|level: int| !#[trigger] is_over(v, o, targets, level) by {
                lemma_is_over(v, o, targets, level);
                assert(!exceeds_target(v, o, level));
            }
        },
        Some(task) => {
            let level = choose|level: int|
                #[trigger] is_chosen_level(v, o, level) && controller.is_level_task(v, level, task);
            lemma_is_over(v, o, targets, level);
            let ids = v.level_ids(level);
            let id = choose|id: usize|
                {
                    &&& #[trigger] is_oldest(ids, id)
                    &&& task == LevelTaskView {
                        upper_level: Some(level as usize),
                        upper_level_sst_ids: seq![id],
                        lower_level: (level + 1) as usize,
                        lower_level_sst_ids: overlapping(
                            v,
                            level + 1,
                            v.sstables[id].first_key,
                            v.sstables[id].last_key,
                        ),
                        is_lower_level_bottom_level: level + 1 == v.levels.len(),
                    }
                };
            assert(is_oldest(ids, id));
            assert(task.upper_level_sst_ids[0] == id);
            let k = choose|k: int| 0 <= k < ids.len() && ids[k] == id;
            assert(v.is_sorted_run(v.level_ids(level)));
            assert(v.is_sorted_run(v.level_ids(level + 1)));
            assert(ids[k] == id);
            let one = seq![id];
            assert(one[0] == id);
            let table = v.sstables[id];
            lemma_key_le_total(table.first_key, table.first_key);
            lemma_key_le_total(table.last_key, table.last_key);
            lemma_overlapping_meets(v, level + 1, table.first_key, table.last_key, one);
        },
    }
}

/// Of the levels that hold more than they should, the one that exceeds its size by the largest
/// factor is compacted: no other one exceeds it by a larger factor, up to the precision of a
/// double, and of those with the same factor it is the lowest. A level that should hold nothing
/// exceeds that by any factor.
pub proof fn lemma_fullest_level_is_compacted(
    controller: LeveledCompactionController,
    v: StateView,
    task: LevelTaskView,
    targets: Seq<int>,
    other: int,
)
    requires
        controller.can_generate(v),
        controller.generates(v, Some(task)),
        v.l0_sstables.len() < controller.options().level0_file_num_compaction_trigger,
        are_targets(v, controller.options(), targets),
        is_over(v, controller.options(), targets, other),
        held(v, other) <= 2 * MIN_SIGNIFICAND,
        held(v, task.upper_level->Some_0 as int) <= 2 * MIN_SIGNIFICAND,
    ensures
        ({
            let upper = task.upper_level->Some_0 as int;
            let (size, target) = (held(v, upper), targets[upper - 1]);
            let (other_size, other_target) = (held(v, other), targets[other - 1]);
            &&& other_target == 0 ==> target == 0 && other <= upper
            &&& target != 0 ==> !(size * other_target * 0x20_0000_0000_0001 < other_size * target
                * 0x1f_ffff_ffff_ffff)
            &&& other_target != 0 && size * other_target == other_size * target ==> other <= upper
        }),
{
    let o = controller.options();
    let upper = choose|level: int|
        #[trigger] is_chosen_level(v, o, level) && controller.is_level_task(v, level, task);
    lemma_is_over(v, o, targets, upper);
    lemma_is_over(v, o, targets, other);
    lemma_targets(v, o, targets, upper);
    lemma_targets(v, o, targets, other);
    if other != upper {
        assert(exceeds_target(v, o, other));
        assert(compacted_before(v, o, upper, other));
        let (a, b) = (held(v, upper) as nat, targets[upper - 1] as nat);
        let (c, d) = (held(v, other) as nat, targets[other - 1] as nat);
        assert(double_of(a) == a && double_of(b) == b && double_of(c) == c && double_of(d) == d);
        if b != 0 && d != 0 {
            if a * d * 0x20_0000_0000_0001 < c * b * 0x1f_ffff_ffff_ffff {
                lemma_rounding_separates(a, b, c, d);
                lemma_rounding_is_monotone(a, b, c, d);
            }
            if a * d == c * b {
                lemma_equal_quotients_round_alike(a, b, c, d);
                lemma_rounding_is_monotone(a, b, a, b);
            }
        }
        if b == 0 && d != 0 {
            assert(a * d > 0 && c * b == 0) by (nonlinear_arith)
                requires
                    a > 0,
                    d > 0,
                    b == 0,
            ;
        }
    } else if targets[upper - 1] != 0 {
        let (x, y) = (held(v, upper), targets[upper - 1]);
        assert(!(x * y * 0x20_0000_0000_0001 < x * y * 0x1f_ffff_ffff_ffff)) by (nonlinear_arith)
            requires
                x > 0,
                y > 0,
        ;
    }
}

/// The number of tables in some tiers.
pub open spec fn tables_in(tiers: Seq<(usize, Seq<usize>)>) -> int {
    tiers.fold_left(0int, |sum: int, tier: (usize, Seq<usize>)| sum + tier.1.len())
}

pub(crate) proof fn lemma_tables_in(tiers: Seq<(usize, Seq<usize>)>)
    ensures
        tables_in(tiers) == table_count(tiers),
    decreases tiers.len(),
{
    if tiers.len() > 0 {
        lemma_tables_in(tiers.drop_last());
    }
}

/// The tables of the upper tiers are at least so many percent of those of the bottom one, in double
/// precision: so it is told exactly where one number of tables is a multiple of the other, and else
/// where the percentages differ. An empty bottom tier counts as reached by any table.
pub proof fn lemma_amplification(upper: nat, lower: nat, percent: nat)
    ensures
        lower == 0 ==> amplification_reaches(upper, lower, percent) == (upper > 0),
        lower > 0 && upper == 0 ==> amplification_reaches(upper, lower, percent) == (percent == 0),
        lower > 0 && upper * 100 < 0x4_0000_0000_0000 && percent * lower < 0x4_0000_0000_0000 ==> {
            &&& upper * 100 > percent * lower ==> amplification_reaches(upper, lower, percent)
            &&& upper * 100 < percent * lower ==> !amplification_reaches(upper, lower, percent)
            &&& upper % lower == 0 && upper * 100 == percent * lower ==> amplification_reaches(
                upper,
                lower,
                percent,
            )
        },
{
    if lower > 0 && upper > 0 && percent > 0 && upper * 100 < 0x4_0000_0000_0000 && percent * lower
        < 0x4_0000_0000_0000 {
        lemma_times_100_tells_side(upper, lower, percent);
        if upper % lower == 0 && upper * 100 == percent * lower {
            let q = upper / lower;
            vstd::arithmetic::div_mod::lemma_fundamental_div_mod(upper as int, lower as int);
            assert(upper == lower * q);
            assert(q > 0 && q * 100 == percent && q <= upper) by (nonlinear_arith)
                requires
                    upper == lower * q,
                    upper * 100 == percent * lower,
                    upper > 0,
                    lower > 0,
            ;
            assert(upper * 1 == q * lower) by (nonlinear_arith)
                requires
                    upper == lower * q,
            ;
            lemma_equal_quotients_round_alike(upper, lower, q, 1);
            lemma_times_100_of_whole(q);
            lemma_rounding_is_monotone(percent, 1, percent, 1);
        }
    }
    assert((percent * lower == 0) == (percent == 0 || lower == 0)) by (nonlinear_arith);
}

/// A tier is too large beside those above it if it has more than so many percent more tables than
/// they have together. Where these have none, it is too large. This is told exactly, as long as the
/// products that tell it are no more than 52 bits long.
pub proof fn lemma_ratio_within(lower: nat, upper: nat, ratio: nat)
    ensures
        upper == 0 ==> !ratio_within(lower, upper, ratio),
        upper > 0 && lower == 0 ==> ratio_within(lower, upper, ratio),
        lower * 100 < 0x10_0000_0000_0000 && (100 + ratio) * upper < 0x10_0000_0000_0000
            && upper > 0 ==> ratio_within(lower, upper, ratio) == (lower * 100 <= (100 + ratio)
            * upper),
{
    if lower > 0 && upper > 0 && lower * 100 < 0x10_0000_0000_0000 && (100 + ratio) * upper
        < 0x10_0000_0000_0000 {
        assert(100 + ratio < 0x10_0000_0000_0000) by (nonlinear_arith)
            requires
                (100 + ratio) * upper < 0x10_0000_0000_0000,
                upper > 0,
        ;
        assert(double_of(ratio) == ratio);
        lemma_over_100_of_whole(100 + ratio);
        lemma_rounding_is_exact(lower, upper, 100 + ratio, 100);
    }
}

proof fn lemma_search_for_too_large(
    tiers: Seq<(usize, Seq<usize>)>,
    o: TieredCompactionOptions,
    from: int,
)
    requires
        0 <= from,
    ensures
        match first_too_large(tiers, o, from) {
            Some(k) => from <= k < tiers.len() && !tier_within(tiers, o, k) && forall|i: int|
                from <= i < k ==> #[trigger] tier_within(tiers, o, i),
            None => forall|i: int| from <= i < tiers.len() ==> #[trigger] tier_within(tiers, o, i),
        },
    decreases tiers.len() - from,
{
    if from < tiers.len() && tier_within(tiers, o, from) {
        lemma_search_for_too_large(tiers, o, from + 1);
    }
}

/// The tier at a position has too many tables beside those above it. The first tier has if it has
/// none.
pub open spec fn outweighs(
    tiers: Seq<(usize, Seq<usize>)>,
    o: TieredCompactionOptions,
    k: int,
) -> bool {
    if k == 0 {
        tiers[0].1.len() == 0
    } else {
        ||| tables_in(tiers.take(k)) == 0
        ||| tiers[k].1.len() * 100 > (100 + o.size_ratio) * tables_in(tiers.take(k))
    }
}

/// What a tiered compaction takes, in terms of the number of tables of each tier: nothing while
/// there are too few tiers; all tiers if those above the bottom one take too much space beside it;
/// else the tiers before the first one that has too many tables beside those above it, counted
/// from the least width of a merge, and not the bottom tier; and only if there is no such tier the
/// first tiers, as many as a merge may take, marked as including the bottom tier. The products
/// that tell one number of tables from another are to be no more than 50 bits long.
pub proof fn lemma_tiered_task(tiers: Seq<(usize, Seq<usize>)>, o: TieredCompactionOptions)
    requires
        tiers.len() > 0,
        (100 + o.size_ratio) * tables_in(tiers) < 0x4_0000_0000_0000,
        o.max_size_amplification_percent * tables_in(tiers) < 0x4_0000_0000_0000,
    ensures
        ({
            let n = tiers.len() as int;
            let upper = tables_in(tiers.drop_last());
            let lower = tiers[n - 1].1.len() as int;
            let percent = o.max_size_amplification_percent as int;
            let all = TieredTaskView { tiers, bottom_tier_included: true };
            let task = tiered_task(tiers, o);
            &&& (task is None) == (n < o.num_tiers)
            &&& n >= o.num_tiers && (upper * 100 > percent * lower) ==> task == Some(all)
            &&& n >= o.num_tiers && (upper * 100 < percent * lower || lower == 0 && upper == 0)
                ==> {
                let from = o.min_merge_width as int;
                &&& forall|k: int|
                    from <= k < n && #[trigger] outweighs(tiers, o, k) && (forall|i: int|
                        from <= i < k ==> !#[trigger] outweighs(tiers, o, i)) ==> task == Some(
                        TieredTaskView { tiers: tiers.take(k), bottom_tier_included: false },
                    )
                &&& (forall|k: int| from <= k < n ==> !#[trigger] outweighs(tiers, o, k)) ==> task
                    == Some(
                    TieredTaskView {
                        tiers: match o.max_merge_width {
                            Some(width) => if width < n {
                                tiers.take(width as int)
                            } else {
                                tiers
                            },
                            None => tiers,
                        },
                        bottom_tier_included: true,
                    },
                )
            }
        }),
{
    let n = tiers.len() as int;
    let front = tiers.drop_last();
    let from = o.min_merge_width as int;
    let percent = o.max_size_amplification_percent as nat;
    lemma_tables_in(tiers);
    lemma_tables_in(front);
    let upper = table_count(front);
    let lower = tiers[n - 1].1.len();
    let total = table_count(tiers);
    assert(total == upper + lower);
    assert(upper * 100 < 0x4_0000_0000_0000 && percent * lower < 0x4_0000_0000_0000) by (nonlinear_arith)
        requires
            (100 + o.size_ratio) * total < 0x4_0000_0000_0000,
            percent * total < 0x4_0000_0000_0000,
            total == upper + lower,
    ;
    lemma_amplification(upper, lower, percent);
    if lower == 0 {
        assert(percent * lower == 0) by (nonlinear_arith)
            requires
                lower == 0,
        ;
    }
    assert(tiers.take(n) =~= tiers);
    assert forall|k: int| 0 <= k < n implies #[trigger] outweighs(tiers, o, k) == !tier_within(
        tiers,
        o,
        k,
    ) by {
        let above = tiers.take(k);
        lemma_tables_in(above);
        lemma_take_counts(tiers, k);
        let (own, sum) = (tiers[k].1.len(), table_count(above));
        assert(own * 100 < 0x10_0000_0000_0000 && (100 + o.size_ratio) * sum < 0x10_0000_0000_0000)
            by (nonlinear_arith)
            requires
                (100 + o.size_ratio) * total < 0x4_0000_0000_0000,
                own + sum <= total,
        ;
        lemma_ratio_within(own, sum, o.size_ratio as nat);
    }
    lemma_search_for_too_large(tiers, o, from);
    match first_too_large(tiers, o, from) {
        Some(found) => {
            assert(outweighs(tiers, o, found));
            assert forall|i: int| from <= i < found implies !#[trigger] outweighs(tiers, o, i) by {
                assert(tier_within(tiers, o, i));
            }
        },
        None => {
            assert forall|i: int| from <= i < n implies !#[trigger] outweighs(tiers, o, i) by {
                assert(tier_within(tiers, o, i));
            }
        },
    }
}

proof fn lemma_take_counts(tiers: Seq<(usize, Seq<usize>)>, k: int)
    requires
        0 <= k < tiers.len(),
    ensures
        table_count(tiers.take(k)) + tiers[k].1.len() <= table_count(tiers),
    decreases tiers.len(),
{
    if k < tiers.len() - 1 {
        lemma_take_counts(tiers.drop_last(), k);
        assert(tiers.drop_last().take(k) =~= tiers.take(k));
    } else {
        assert(tiers.drop_last() =~= tiers.take(k));
    }
}

/// How a tiered compaction is chosen for any number of tables, with its two comparisons in double
/// precision: which tier is the first that is too large is told over all positions.
pub proof fn lemma_tiered_task_in_doubles(
    tiers: Seq<(usize, Seq<usize>)>,
    o: TieredCompactionOptions,
)
    requires
        tiers.len() > 0,
        tiers.len() >= o.num_tiers,
    ensures
        ({
            let n = tiers.len() as int;
            let from = o.min_merge_width as int;
            let task = tiered_task(tiers, o);
            let is_too_large = |k: int|
                if k == 0 {
                    tiers[0].1.len() == 0
                } else {
                    !ratio_within(
                        tiers[k].1.len(),
                        tables_in(tiers.take(k)) as nat,
                        o.size_ratio as nat,
                    )
                };
            if amplification_reaches(
                tables_in(tiers.drop_last()) as nat,
                tiers[n - 1].1.len(),
                o.max_size_amplification_percent as nat,
            ) {
                task == Some(TieredTaskView { tiers, bottom_tier_included: true })
            } else {
                &&& forall|k: int|
                    from <= k < n && #[trigger] is_too_large(k) && (forall|i: int|
                        from <= i < k ==> !#[trigger] is_too_large(i)) ==> task == Some(
                        TieredTaskView { tiers: tiers.take(k), bottom_tier_included: false },
                    )
                &&& (forall|k: int| from <= k < n ==> !#[trigger] is_too_large(k)) ==> task == Some(
                    TieredTaskView {
                        tiers: match o.max_merge_width {
                            Some(width) => if width < n {
                                tiers.take(width as int)
                            } else {
                                tiers
                            },
                            None => tiers,
                        },
                        bottom_tier_included: true,
                    },
                )
            }
        }),
{
    let n = tiers.len() as int;
    let from = o.min_merge_width as int;
    let is_too_large = |k: int|
        if k == 0 {
            tiers[0].1.len() == 0
        } else {
            !ratio_within(
                tiers[k].1.len(),
                tables_in(tiers.take(k)) as nat,
                o.size_ratio as nat,
            )
        };
    lemma_tables_in(tiers.drop_last());
    assert(tiers.take(n) =~= tiers);
    assert forall|k: int| 0 <= k < n implies #[trigger] is_too_large(k) == !tier_within(
        tiers,
        o,
        k,
    ) by {
        lemma_tables_in(tiers.take(k));
    }
    lemma_search_for_too_large(tiers, o, from);
    match first_too_large(tiers, o, from) {
        Some(found) => {
            assert(is_too_large(found));
            assert forall|i: int| from <= i < found implies !#[trigger] is_too_large(i) by {
                assert(tier_within(tiers, o, i));
            }
        },
        None => {
            assert forall|i: int| from <= i < n implies !#[trigger] is_too_large(i) by {
                assert(tier_within(tiers, o, i));
            }
        },
    }
}

/// The lower level has fewer tables than so many percent of the upper one. This is told exactly, as
/// long as the products that tell it are no more than 52 bits long. Beside an empty upper level no
/// lower level has too few.
pub proof fn lemma_ratio_below(lower: nat, upper: nat, percent: nat)
    ensures
        upper == 0 || percent == 0 ==> !ratio_below(lower, upper, percent),
        lower * 100 < 0x10_0000_0000_0000 && percent * upper < 0x10_0000_0000_0000 ==> ratio_below(
            lower,
            upper,
            percent,
        ) == (lower * 100 < percent * upper),
{
    if upper == 0 || percent == 0 {
        assert(percent * upper == 0) by (nonlinear_arith)
            requires
                upper == 0 || percent == 0,
        ;
    } else if lower * 100 < 0x10_0000_0000_0000 && percent * upper < 0x10_0000_0000_0000 {
        assert(percent < 0x10_0000_0000_0000 && upper < 0x10_0000_0000_0000 && percent * upper > 0)
            by (nonlinear_arith)
            requires
                percent * upper < 0x10_0000_0000_0000,
                percent > 0,
                upper > 0,
        ;
        if lower > 0 {
            lemma_rounding_is_exact(percent, 100, lower, upper);
        }
    }
}

/// A level, where level 0 is L0, is to be compacted into the next one: L0 has enough tables, and
/// the next level has too few beside it.
pub open spec fn is_short(v: StateView, o: SimpleLeveledCompactionOptions, level: int) -> bool {
    let upper = if level == 0 {
        v.l0_sstables.len()
    } else {
        v.levels[level - 1].1.len()
    };
    &&& level == 0 ==> v.l0_sstables.len() >= o.level0_file_num_compaction_trigger
    &&& v.levels[level].1.len() * 100 < o.size_ratio_percent * upper
}

proof fn lemma_simple_search(v: StateView, o: SimpleLeveledCompactionOptions, from: int)
    requires
        0 <= from,
    ensures
        match simple_task_from(v, o, from) {
            Some(task) => exists|level: int|
                #![trigger level_is_due(v, o, level)]
                from <= level < o.max_levels && level_is_due(v, o, level) && task
                    == whole_level_task(v, o, level) && forall|l: int|
                    from <= l < level ==> !#[trigger] level_is_due(v, o, l),
            None => forall|l: int| from <= l < o.max_levels ==> !#[trigger] level_is_due(v, o, l),
        },
    decreases o.max_levels - from,
{
    if from < o.max_levels && !level_is_due(v, o, from) {
        lemma_simple_search(v, o, from + 1);
    }
}

/// What a simple leveled compaction takes, in terms of the number of tables of each level: nothing
/// if each level has enough tables beside the one above it, and else all tables of the first level
/// that is large beside the next one, and all tables of that next one. The products that tell one
/// number of tables from another are to be no more than 52 bits long.
pub proof fn lemma_simple_task(
    v: StateView,
    o: SimpleLeveledCompactionOptions,
    task: Option<LevelTaskView>,
)
    requires
        v.levels.len() == o.max_levels,
        task == simple_task_from(v, o, 0),
        v.l0_sstables.len() * (100 + o.size_ratio_percent) < 0x10_0000_0000_0000,
        forall|level: int|
            1 <= level <= v.levels.len() ==> (#[trigger] v.levels[level - 1]).1.len() * (100
                + o.size_ratio_percent) < 0x10_0000_0000_0000,
    ensures
        match task {
            None => forall|level: int|
                0 <= level < v.levels.len() ==> !#[trigger] is_short(v, o, level),
            Some(task) => {
                let level = task.lower_level - 1;
                &&& 0 <= level < v.levels.len()
                &&& is_short(v, o, level)
                &&& forall|l: int| 0 <= l < level ==> !#[trigger] is_short(v, o, l)
                &&& task.lower_level_sst_ids == v.levels[level].1
                &&& task.is_lower_level_bottom_level == (level + 1 == v.levels.len())
                &&& if level == 0 {
                    task.upper_level is None && task.upper_level_sst_ids == v.l0_sstables
                } else {
                    task.upper_level == Some(level as usize) && task.upper_level_sst_ids
                        == v.levels[level - 1].1
                }
            },
        },
{
    assert forall|level: int| 0 <= level < v.levels.len() implies #[trigger] is_short(v, o, level)
        == level_is_due(v, o, level) by {
        let upper = run_ids(v, level).len();
        let lower = run_ids(v, level + 1).len();
        let percent = o.size_ratio_percent as nat;
        assert(lower == v.levels[level].1.len());
        assert(v.levels[(level + 1) - 1].1.len() * (100 + o.size_ratio_percent)
            < 0x10_0000_0000_0000);
        if level > 0 {
            assert(v.levels[level - 1].1.len() * (100 + o.size_ratio_percent)
                < 0x10_0000_0000_0000);
        }
        assert(lower * 100 < 0x10_0000_0000_0000 && percent * upper < 0x10_0000_0000_0000)
            by (nonlinear_arith)
            requires
                lower * (100 + percent) < 0x10_0000_0000_0000,
                upper * (100 + percent) < 0x10_0000_0000_0000,
        ;
        lemma_ratio_below(lower, upper, percent);
    }
    lemma_simple_search(v, o, 0);
    match task {
        None => {
            assert forall|level: int| 0 <= level < v.levels.len() implies !#[trigger] is_short(
                v,
                o,
                level,
            ) by {
                assert(!level_is_due(v, o, level));
            }
        },
        Some(task) => {
            let level = choose|level: int|
                #![trigger level_is_due(v, o, level)]
                0 <= level < o.max_levels && level_is_due(v, o, level) && task == whole_level_task(
                    v,
                    o,
                    level,
                ) && forall|l: int| 0 <= l < level ==> !#[trigger] level_is_due(v, o, l);
            assert(is_short(v, o, level));
            assert forall|l: int| 0 <= l < level implies !#[trigger] is_short(v, o, l) by {
                assert(!level_is_due(v, o, l));
            }
        },
    }
}

/// The comparisons that decide on a compaction, for numbers of any size, in double precision. Over
/// nothing a quotient is infinite or not a number.
pub proof fn lemma_comparisons_in_doubles(a: nat, b: nat, c: nat, d: nat)
    ensures
        // upper tables beside lower ones: `a / b * 100.0 >= c`
        a > 0 && b > 0 && c > 0 ==> amplification_reaches(a, b, c) == double_le(
            rounded(c, 1),
            times_100(rounded(a, b)),
        ),
        // a tier beside those above it: `a / b <= (100.0 + c) / 100.0`
        a > 0 && b > 0 ==> ratio_within(a, b, c) == double_le(
            rounded(a, b),
            over_100(rounded(100 + double_of(c), 1)),
        ),
        // a level beside the one above it: `a / b < c / 100.0`
        a > 0 && b > 0 && c > 0 ==> ratio_below(a, b, c) == !double_le(
            rounded(double_of(c), 100),
            rounded(double_of(a), double_of(b)),
        ),
        a == 0 && b > 0 && c > 0 ==> ratio_below(a, b, c),
        // sizes beside their targets: `a / b < c / d`
        b > 0 && d > 0 ==> priority_lt(a, b, c, d) == !double_le(
            rounded(double_of(c), double_of(d)),
            rounded(double_of(a), double_of(b)),
        ),
        b == 0 ==> !priority_lt(a, b, c, d),
        b > 0 && d == 0 ==> priority_lt(a, b, c, d),
        a <= 0x20_0000_0000_0000 ==> double_of(a) == a,
        a > 0x20_0000_0000_0000 ==> double_of(a) == rounded(a, 1).m * pow2(
            rounded(a, 1).e as nat,
        ),
{
}

/// Of the levels that hold more than they should, the one whose factor is largest in double
/// precision is compacted and, of those with the same factor, the lowest one, whatever the sizes.
pub proof fn lemma_fullest_level_in_doubles(
    controller: LeveledCompactionController,
    v: StateView,
    task: LevelTaskView,
    targets: Seq<int>,
    other: int,
)
    requires
        controller.can_generate(v),
        controller.generates(v, Some(task)),
        v.l0_sstables.len() < controller.options().level0_file_num_compaction_trigger,
        are_targets(v, controller.options(), targets),
        is_over(v, controller.options(), targets, other),
    ensures
        ({
            let upper = task.upper_level->Some_0 as int;
            let (size, target) = (held(v, upper) as nat, targets[upper - 1] as nat);
            let (other_size, other_target) = (held(v, other) as nat, targets[other - 1] as nat);
            let factor = rounded(double_of(size), double_of(target));
            let other_factor = rounded(double_of(other_size), double_of(other_target));
            &&& other_target == 0 ==> target == 0 && other <= upper
            &&& target != 0 && other_target != 0 ==> double_le(other_factor, factor) && (double_le(
                factor,
                other_factor,
            ) ==> other <= upper)
        }),
{
    let o = controller.options();
    let upper = choose|level: int|
        #[trigger] is_chosen_level(v, o, level) && controller.is_level_task(v, level, task);
    lemma_is_over(v, o, targets, upper);
    lemma_is_over(v, o, targets, other);
    lemma_targets(v, o, targets, upper);
    lemma_targets(v, o, targets, other);
    let (size, target) = (held(v, upper) as nat, targets[upper - 1] as nat);
    let (other_size, other_target) = (held(v, other) as nat, targets[other - 1] as nat);
    let factor = rounded(double_of(size), double_of(target));
    let other_factor = rounded(double_of(other_size), double_of(other_target));
    lemma_double_le_total(factor, other_factor);
    if other != upper {
        assert(exceeds_target(v, o, other));
        assert(compacted_before(v, o, upper, other));
    } else {
        lemma_double_le_total(factor, factor);
    }
}

/// The level that a simple leveled compaction takes, for any numbers of tables: the first one that
/// is large enough beside the next one, where this is told in double precision.
pub proof fn lemma_simple_task_in_doubles(
    v: StateView,
    o: SimpleLeveledCompactionOptions,
    task: Option<LevelTaskView>,
)
    requires
        v.levels.len() == o.max_levels,
        task == simple_task_from(v, o, 0),
    ensures
        ({
            let count = |level: int|
                if level == 0 {
                    v.l0_sstables.len()
                } else {
                    v.levels[level - 1].1.len()
                };
            let is_due = |level: int|
                (level == 0 ==> v.l0_sstables.len() >= o.level0_file_num_compaction_trigger)
                    && ratio_below(count(level + 1), count(level), o.size_ratio_percent as nat);
            match task {
                None => forall|level: int| 0 <= level < v.levels.len() ==> !#[trigger] is_due(level),
                Some(task) => {
                    let level = task.lower_level - 1;
                    &&& 0 <= level < v.levels.len()
                    &&& is_due(level)
                    &&& forall|l: int| 0 <= l < level ==> !#[trigger] is_due(l)
                    &&& task.lower_level_sst_ids == v.levels[level].1
                    &&& task.is_lower_level_bottom_level == (level + 1 == v.levels.len())
                    &&& if level == 0 {
                        task.upper_level is None && task.upper_level_sst_ids == v.l0_sstables
                    } else {
                        task.upper_level == Some(level as usize) && task.upper_level_sst_ids
                            == v.levels[level - 1].1
                    }
                },
            }
        }),
{
    let count = |level: int|
        if level == 0 {
            v.l0_sstables.len()
        } else {
            v.levels[level - 1].1.len()
        };
    let is_due = |level: int|
        (level == 0 ==> v.l0_sstables.len() >= o.level0_file_num_compaction_trigger)
            && ratio_below(count(level + 1), count(level), o.size_ratio_percent as nat);
    assert forall|level: int| 0 <= level < v.levels.len() implies #[trigger] is_due(level)
        == level_is_due(v, o, level) by {}
    lemma_simple_search(v, o, 0);
    match task {
        None => {
            assert forall|level: int| 0 <= level < v.levels.len() implies !#[trigger] is_due(
                level,
            ) by {
                assert(!level_is_due(v, o, level));
            }
        },
        Some(task) => {
            let level = choose|level: int|
                #![trigger level_is_due(v, o, level)]
                0 <= level < o.max_levels && level_is_due(v, o, level) && task == whole_level_task(
                    v,
                    o,
                    level,
                ) && forall|l: int| 0 <= l < level ==> !#[trigger] level_is_due(v, o, l);
            assert(is_due(level));
            assert forall|l: int| 0 <= l < level implies !#[trigger] is_due(l) by {
                assert(!level_is_due(v, o, l));
            }
        },
    }
}

} // verus!
