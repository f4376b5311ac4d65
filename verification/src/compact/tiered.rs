//! Tiered compaction: whole tiers are merged, to bound the space that overwritten entries take
//! and the number of sorted runs.

use vstd::prelude::*;

use crate::double::{
    double_le, double_of, over_100, rounded, times_100, Double, MIN_SIGNIFICAND,
};
use crate::ids::append_ids;
use crate::lsm_storage::{clone_levels, levels_view, LsmStorageState, StateView};

verus! {

/// One step of tiered compaction.
#[derive(Debug)]
pub struct TieredCompactionTask {
    pub tiers: Vec<(usize, Vec<usize>)>,
    pub bottom_tier_included: bool,
}

/// What a `TieredCompactionTask` stands for.
#[verifier::ext_equal]
pub struct TieredTaskView {
    pub tiers: Seq<(usize, Seq<usize>)>,
    pub bottom_tier_included: bool,
}

impl View for TieredCompactionTask {
    type V = TieredTaskView;

    open spec fn view(&self) -> TieredTaskView {
        TieredTaskView {
            tiers: levels_view(self.tiers@),
            bottom_tier_included: self.bottom_tier_included,
        }
    }
}

/// What an optional task stands for.
pub open spec fn task_view(task: Option<TieredCompactionTask>) -> Option<TieredTaskView> {
    match task {
        Some(task) => Some(task@),
        None => None,
    }
}

/// How tiered compaction is set up.
#[derive(Clone, Copy, Debug)]
pub struct TieredCompactionOptions {
    pub num_tiers: usize,
    pub max_size_amplification_percent: usize,
    pub size_ratio: usize,
    pub min_merge_width: usize,
    pub max_merge_width: Option<usize>,
}

/// Decides on tiered compaction.
pub struct TieredCompactionController {
    options: TieredCompactionOptions,
}

/// The number of tables in some tiers.
pub open spec fn table_count(tiers: Seq<(usize, Seq<usize>)>) -> nat
    decreases tiers.len(),
{
    if tiers.len() == 0 {
        0
    } else {
        table_count(tiers.drop_last()) + tiers.last().1.len()
    }
}

/// The table ids of some tiers, one tier after the other.
pub open spec fn tier_ids(tiers: Seq<(usize, Seq<usize>)>) -> Seq<usize>
    decreases tiers.len(),
{
    if tiers.len() == 0 {
        Seq::empty()
    } else {
        tier_ids(tiers.drop_last()) + tiers.last().1
    }
}

/// `upper / lower * 100.0 >= percent`, in double precision: over an empty bottom tier the ratio
/// is infinite, unless the upper tiers are empty too and it is not a number.
pub open spec fn amplification_reaches(upper: nat, lower: nat, percent: nat) -> bool {
    if lower == 0 {
        upper > 0
    } else if percent == 0 {
        true
    } else if upper == 0 {
        false
    } else {
        double_le(rounded(percent, 1), times_100(rounded(upper, lower)))
    }
}

/// `lower / upper <= (100.0 + ratio) / 100.0`, in double precision: over nothing the ratio is
/// infinite or not a number.
pub open spec fn ratio_within(lower: nat, upper: nat, ratio: nat) -> bool {
    if upper == 0 {
        false
    } else if lower == 0 {
        true
    } else {
        double_le(rounded(lower, upper), over_100(rounded(100 + double_of(ratio), 1)))
    }
}

/// The tier at a position is within the size ratio to the tiers above it. No tiers at all sum up to
/// negative zero, over which a number of tables is negative infinity and none is not a number.
pub open spec fn tier_within(
    tiers: Seq<(usize, Seq<usize>)>,
    o: TieredCompactionOptions,
    i: int,
) -> bool {
    if i == 0 {
        tiers[0].1.len() > 0
    } else {
        ratio_within(tiers[i].1.len(), table_count(tiers.take(i)), o.size_ratio as nat)
    }
}

/// The first tier from position `i` on that is too large beside the tiers above it.
pub open spec fn first_too_large(
    tiers: Seq<(usize, Seq<usize>)>,
    o: TieredCompactionOptions,
    i: int,
) -> Option<int>
    decreases tiers.len() - i,
{
    if i >= tiers.len() {
        None
    } else if !tier_within(tiers, o, i) {
        Some(i)
    } else {
        first_too_large(tiers, o, i + 1)
    }
}

/// The task for a list of tiers, from the latest to the earliest.
///
/// A task that takes as many tiers as a merge may take is marked as including the bottom tier even
/// where `max_merge_width` is below the number of tiers, so that it stops short of the bottom tier.
pub open spec fn tiered_task(tiers: Seq<(usize, Seq<usize>)>, o: TieredCompactionOptions) -> Option<
    TieredTaskView,
> {
    let n = tiers.len() as int;
    let width = match o.max_merge_width {
        Some(width) if width < n => width as int,
        _ => n,
    };
    if n < o.num_tiers {
        None
    } else if amplification_reaches(
        table_count(tiers.drop_last()),
        tiers.last().1.len(),
        o.max_size_amplification_percent as nat,
    ) {
        Some(TieredTaskView { tiers, bottom_tier_included: true })
    } else {
        match first_too_large(tiers, o, o.min_merge_width as int) {
            Some(i) => Some(TieredTaskView { tiers: tiers.take(i), bottom_tier_included: false }),
            None => Some(TieredTaskView { tiers: tiers.take(width), bottom_tier_included: true }),
        }
    }
}

/// The position of the first tier with the given number.
pub open spec fn tier_position(tiers: Seq<(usize, Seq<usize>)>, number: usize) -> int
    decreases tiers.len(),
{
    if tiers.len() == 0 || tiers[0].0 == number {
        0
    } else {
        1 + tier_position(tiers.drop_first(), number)
    }
}

/// The tiers after a compaction: the output, a tier numbered after its first table, takes the
/// place of the last tiers or, where the bottom tier is not included, of those from the first
/// tier of the task on.
pub open spec fn tiers_after(
    tiers: Seq<(usize, Seq<usize>)>,
    task: TieredTaskView,
    output: Seq<usize>,
) -> Seq<(usize, Seq<usize>)> {
    let n = tiers.len() as int;
    let k = task.tiers.len() as int;
    if task.bottom_tier_included {
        tiers.take(n - k).push((output[0], output))
    } else {
        let pos = tier_position(tiers, task.tiers[0].0);
        tiers.take(pos) + seq![(output[0], output)] + tiers.skip(pos + k)
    }
}

/// The tables that a compaction leaves unused: those of the tiers that it takes off the end or,
/// where the bottom tier is not included, those of the task.
pub open spec fn unused_after(tiers: Seq<(usize, Seq<usize>)>, task: TieredTaskView) -> Seq<usize> {
    if task.bottom_tier_included {
        tier_ids(tiers.skip(tiers.len() - task.tiers.len()))
    } else {
        tier_ids(task.tiers)
    }
}

/// There are as many tiers as the task takes, from where it takes them.
pub open spec fn tiered_task_fits(tiers: Seq<(usize, Seq<usize>)>, task: TieredTaskView) -> bool {
    if task.bottom_tier_included {
        task.tiers.len() <= tiers.len()
    } else {
        &&& task.tiers.len() > 0
        &&& tier_position(tiers, task.tiers[0].0) + task.tiers.len() <= tiers.len()
    }
}

/// The position of the first tier with the given number; the number of tiers if there is none.
fn find_tier(tiers: &Vec<(usize, Vec<usize>)>, number: usize) -> (pos: usize)
    ensures
        pos == tier_position(levels_view(tiers@), number),
        pos <= tiers@.len(),
{
    let ghost view = levels_view(tiers@);
    let mut pos: usize = 0;
    assert(view.skip(0) =~= view);
    while pos < tiers.len() && tiers[pos].0 != number
        invariant
            view == levels_view(tiers@),
            pos <= tiers@.len(),
            tier_position(view, number) == pos + tier_position(view.skip(pos as int), number),
        decreases tiers@.len() - pos,
    {
        proof {
            assert(view.skip(pos as int)[0] == view[pos as int]);
            assert(view.skip(pos as int).drop_first() =~= view.skip(pos + 1));
        }
        pos += 1;
    }
    proof {
        if pos < tiers.len() {
            assert(view.skip(pos as int)[0] == view[pos as int]);
        }
    }
    pos
}

/// The table ids of some tiers, one tier after the other.
pub(crate) fn collect_tier_ids(tiers: &Vec<(usize, Vec<usize>)>) -> (ids: Vec<usize>)
    ensures
        ids@ == tier_ids(levels_view(tiers@)),
{
    let ghost view = levels_view(tiers@);
    let mut ids: Vec<usize> = Vec::new();
    let mut i: usize = 0;
    while i < tiers.len()
        invariant
            view == levels_view(tiers@),
            i <= tiers@.len(),
            ids@ == tier_ids(view.take(i as int)),
        decreases tiers@.len() - i,
    {
        append_ids(&mut ids, tiers[i].1.as_slice());
        proof {
            assert(view.take(i + 1).drop_last() =~= view.take(i as int));
            assert(view.take(i + 1).last() == view[i as int]);
        }
        i += 1;
    }
    assert(view.take(i as int) =~= view);
    ids
}

proof fn lemma_table_count_grows(tiers: Seq<(usize, Seq<usize>)>, k: int)
    requires
        0 <= k <= tiers.len(),
    ensures
        table_count(tiers.take(k)) <= table_count(tiers),
    decreases tiers.len(),
{
    if k < tiers.len() {
        lemma_table_count_grows(tiers.drop_last(), k);
        assert(tiers.drop_last().take(k) =~= tiers.take(k));
    } else {
        assert(tiers.take(k) =~= tiers);
    }
}

/// The number of tables in the first `count` tiers.
fn count_tables(tiers: &Vec<(usize, Vec<usize>)>, count: usize) -> (total: u64)
    requires
        count <= tiers@.len(),
        table_count(levels_view(tiers@)) <= 2 * MIN_SIGNIFICAND,
    ensures
        total == table_count(levels_view(tiers@).take(count as int)),
{
    let ghost view = levels_view(tiers@);
    let mut total: u64 = 0;
    let mut i: usize = 0;
    while i < count
        invariant
            view == levels_view(tiers@),
            table_count(view) <= 2 * MIN_SIGNIFICAND,
            i <= count <= tiers@.len(),
            total == table_count(view.take(i as int)),
        decreases count - i,
    {
        proof {
            lemma_table_count_grows(view, i + 1);
            assert(view.take(i + 1).drop_last() =~= view.take(i as int));
            assert(view.take(i + 1).last() == view[i as int]);
        }
        total = total + tiers[i].1.len() as u64;
        i += 1;
    }
    total
}

/// A copy of the first `count` tiers.
fn first_tiers(tiers: &Vec<(usize, Vec<usize>)>, count: usize) -> (first: Vec<(usize, Vec<usize>)>)
    requires
        count <= tiers@.len(),
    ensures
        levels_view(first@) == levels_view(tiers@).take(count as int),
{
    let mut first = clone_levels(tiers);
    first.truncate(count);
    assert(levels_view(first@) =~= levels_view(tiers@).take(count as int));
    first
}

impl TieredCompactionController {
    pub closed spec fn options(&self) -> TieredCompactionOptions {
        self.options
    }

    /// A merge by size ratio takes no more tiers than have to be there.
    pub open spec fn wf(&self) -> bool {
        self.options().min_merge_width <= self.options().num_tiers
    }

    /// There is a bottom tier where the tiers are enough to merge, and the tables are no more
    /// than double precision counts.
    pub open spec fn can_generate(&self, v: StateView) -> bool {
        &&& self.wf()
        &&& v.levels.len() < self.options().num_tiers || v.levels.len() > 0
        &&& table_count(v.levels) <= 2 * MIN_SIGNIFICAND
    }

    /// Whether there is a bottom tier where the tiers are enough to merge, and the tables are no
    /// more than double precision counts.
    pub fn can_generate_task(&self, snapshot: &LsmStorageState) -> (can: bool)
        ensures
            can == self.can_generate(snapshot@),
    {
        let levels = &snapshot.levels;
        let ghost tiers = levels_view(levels@);
        let n: usize = levels.len();
        if self.options.min_merge_width > self.options.num_tiers || (n >= self.options.num_tiers
            && n == 0) {
            return false;
        }
        let mut total: u64 = 0;
        let mut i: usize = 0;
        while i < n
            invariant
                tiers == levels_view(levels@),
                tiers == snapshot@.levels,
                n == levels@.len(),
                i <= n,
                total == table_count(tiers.take(i as int)),
                total <= 2 * MIN_SIGNIFICAND,
            decreases n - i,
        {
            proof {
                lemma_table_count_grows(tiers, i + 1);
                assert(tiers.take(i + 1).drop_last() =~= tiers.take(i as int));
                assert(tiers.take(i + 1).last() == tiers[i as int]);
            }
            if levels[i].1.len() as u64 > 2 * MIN_SIGNIFICAND - total {
                return false;
            }
            total = total + levels[i].1.len() as u64;
            i += 1;
        }
        assert(tiers.take(i as int) =~= tiers);
        true
    }

    /// Whether the tiers of the task are there and its output is not empty.
    pub fn can_apply_result(
        &self,
        snapshot: &LsmStorageState,
        task: &TieredCompactionTask,
        output: &[usize],
    ) -> (can: bool)
        ensures
            can == (output@.len() > 0 && tiered_task_fits(snapshot@.levels, task@)),
    {
        let ghost tiers = snapshot@.levels;
        let k: usize = task.tiers.len();
        let n: usize = snapshot.levels.len();
        assert(task@.tiers.len() == k && tiers.len() == n);
        if output.len() == 0 {
            return false;
        }
        if task.bottom_tier_included {
            return k <= n;
        }
        if k == 0 {
            return false;
        }
        let pos: usize = find_tier(&snapshot.levels, task.tiers[0].0);
        k <= n && pos <= n - k
    }

    /// The strategy with the given options.
    pub fn new(options: TieredCompactionOptions) -> (controller: Self)
        requires
            options.min_merge_width <= options.num_tiers,
        ensures
            controller.options() == options,
            controller.wf(),
    {
        TieredCompactionController { options }
    }

    /// Whether the tables in the upper tiers reach the amplification limit.
    fn amplification_is_reached(&self, upper: u64, lower: u64) -> (reached: bool)
        ensures
            reached == amplification_reaches(
                upper as nat,
                lower as nat,
                self.options().max_size_amplification_percent as nat,
            ),
    {
        let percent = self.options.max_size_amplification_percent;
        if lower == 0 {
            upper > 0
        } else if percent == 0 {
            true
        } else if upper == 0 {
            false
        } else {
            let ratio = Double::quotient(upper as u128, lower as u128).times_100();
            Double::quotient(percent as u128, 1).is_le(&ratio)
        }
    }

    /// Whether a tier is within the size ratio to the tiers above it.
    fn is_within_ratio(&self, lower: u64, upper: u64) -> (within: bool)
        ensures
            within == ratio_within(lower as nat, upper as nat, self.options().size_ratio as nat),
    {
        if upper == 0 {
            false
        } else if lower == 0 {
            true
        } else {
            let percent = Double::quotient(100 + Double::whole(self.options.size_ratio as u64), 1);
            let trigger = percent.over_100();
            Double::quotient(lower as u128, upper as u128).is_le(&trigger)
        }
    }

    /// Which tiers to merge next, if any.
    ///
    /// With enough tiers, all of them are merged once the upper ones are large beside the bottom
    /// one; else those above the first tier that is large beside them; else as many as a merge
    /// may take.
    pub fn generate_compaction_task(&self, snapshot: &LsmStorageState) -> (task: Option<
        TieredCompactionTask,
    >)
        requires
            self.can_generate(snapshot@),
        ensures
            task_view(task) == tiered_task(snapshot@.levels, self.options()),
    {
        let levels = &snapshot.levels;
        let ghost tiers = levels_view(levels@);
        let ghost o = self.options;
        let n: usize = levels.len();
        if n < self.options.num_tiers {
            return None;
        }
        assert(tiers.take(n - 1) =~= tiers.drop_last());
        let upper_size = count_tables(levels, n - 1);
        let lower_size = levels[n - 1].1.len() as u64;
        if self.amplification_is_reached(upper_size, lower_size) {
            return Some(
                TieredCompactionTask { tiers: clone_levels(levels), bottom_tier_included: true },
            );
        }
        let mut upper_size = count_tables(levels, self.options.min_merge_width);
        let mut i: usize = self.options.min_merge_width;
        while i < n
            invariant
                self.wf(),
                o == self.options,
                tiers == levels_view(levels@),
                n == tiers.len(),
                n >= o.num_tiers,
                o.min_merge_width <= i <= n,
                table_count(tiers) <= 2 * MIN_SIGNIFICAND,
                upper_size == table_count(tiers.take(i as int)),
                first_too_large(tiers, o, o.min_merge_width as int) == first_too_large(
                    tiers,
                    o,
                    i as int,
                ),
                tiers == snapshot@.levels,
                !amplification_reaches(
                    table_count(tiers.drop_last()),
                    tiers.last().1.len(),
                    o.max_size_amplification_percent as nat,
                ),
            decreases n - i,
        {
            let lower_size = levels[i].1.len() as u64;
            let within = if i == 0 {
                lower_size > 0
            } else {
                self.is_within_ratio(lower_size, upper_size)
            };
            if !within {
                return Some(
                    TieredCompactionTask {
                        tiers: first_tiers(levels, i),
                        bottom_tier_included: false,
                    },
                );
            }
            proof {
                lemma_table_count_grows(tiers, i + 1);
                assert(tiers.take(i + 1).drop_last() =~= tiers.take(i as int));
                assert(tiers.take(i + 1).last() == tiers[i as int]);
            }
            upper_size = upper_size + lower_size;
            i += 1;
        }
        let num_tiers_to_take: usize = match self.options.max_merge_width {
            Some(width) => if width < n {
                width
            } else {
                n
            },
            None => n,
        };
        Some(
            TieredCompactionTask {
                tiers: first_tiers(levels, num_tiers_to_take),
                bottom_tier_included: n >= num_tiers_to_take,
            },
        )
    }

    /// The state after a compaction, and the tables that are no longer used.
    pub fn apply_compaction_result(
        &self,
        snapshot: &LsmStorageState,
        task: &TieredCompactionTask,
        output: &[usize],
    ) -> (result: (LsmStorageState, Vec<usize>))
        requires
            output@.len() > 0,
            tiered_task_fits(snapshot@.levels, task@),
        ensures
            result.0@ == (StateView {
                levels: tiers_after(snapshot@.levels, task@, output@),
                ..snapshot@
            }),
            result.1@ == unused_after(snapshot@.levels, task@),
    {
        let ghost tiers = snapshot@.levels;
        let mut snapshot = snapshot.clone();
        let k: usize = task.tiers.len();
        let n: usize = snapshot.levels.len();
        assert(tiers.len() == n);
        assert(task@.tiers.len() == k);
        let merged = (output[0], vstd::slice::slice_to_vec(output));
        if task.bottom_tier_included {
            let unused_tiers = snapshot.levels.split_off(n - k);
            assert(levels_view(unused_tiers@) =~= tiers.skip(n - k));
            let unused_sst_ids = collect_tier_ids(&unused_tiers);
            snapshot.levels.push(merged);
            assert(levels_view(snapshot.levels@) =~= tiers_after(tiers, task@, output@));
            (snapshot, unused_sst_ids)
        } else {
            let unused_sst_ids = collect_tier_ids(&task.tiers);
            let number = task.tiers[0].0;
            let pos: usize = find_tier(&snapshot.levels, number);
            let mut rest = snapshot.levels.split_off(pos);
            let mut tail = rest.split_off(k);
            snapshot.levels.push(merged);
            snapshot.levels.append(&mut tail);
            assert(levels_view(snapshot.levels@) =~= tiers_after(tiers, task@, output@));
            (snapshot, unused_sst_ids)
        }
    }
}

} // verus!
