//! Where a key or a range of keys is looked up.
//!
//! A key is looked up in the memtables, the latest first, then in the L0 tables, the latest first,
//! and then level by level. The first value found counts; an empty one stands for a deleted key.

use std::sync::Arc;

use bytes::Bytes;
use vstd::prelude::*;

use super::{tables_view, LsmStorageState, StateView};
use crate::codec::{bytes_copy_from_slice, bytes_view};
use crate::hash::{can_hash, farm_hash, hash32, sums_fit};
use crate::iterators::{failure_of, EntryView, IterError, StorageIterator};
use crate::key::{
    bytes_equal, bytes_le, bytes_lt, key_le, lemma_bytes_lt_total, lemma_bytes_lt_transitive,
};
use crate::search::{
    check_partitioned, is_partitioned, lemma_prefix_len, partition_point, prefix_len,
};
use crate::table::{
    above_lower, below_upper, is_above_lower, is_below_upper, BoundView, ScanBound, SsTable,
    TableView,
};

verus! {

/// The table ends below the lower bound.
pub open spec fn ends_below(tables: Map<usize, TableView>, lower: BoundView) -> spec_fn(
    usize,
) -> bool {
    |id: usize| !above_lower(tables[id].last_key.key, lower)
}

/// The table does not start above the upper bound.
pub open spec fn starts_within(tables: Map<usize, TableView>, upper: BoundView) -> spec_fn(
    usize,
) -> bool {
    |id: usize| below_upper(tables[id].first_key.key, upper)
}

/// The table reaches into the range.
pub open spec fn reaches_into(
    tables: Map<usize, TableView>,
    lower: BoundView,
    upper: BoundView,
) -> spec_fn(usize) -> bool {
    |id: usize| tables[id].overlaps(lower, upper)
}

impl StateView {
    /// Where in the list the tables begin that do not end below the lower bound.
    pub open spec fn range_start(self, ids: Seq<usize>, lower: BoundView) -> int {
        prefix_len(ids, ends_below(self.sstables, lower)) as int
    }

    /// Where in the list the tables end that do not start above the upper bound.
    pub open spec fn range_end(self, ids: Seq<usize>, upper: BoundView) -> int {
        prefix_len(ids, starts_within(self.sstables, upper)) as int
    }

    /// The tables of the list between the two positions.
    pub open spec fn range_of(
        self,
        ids: Seq<usize>,
        lower: BoundView,
        upper: BoundView,
    ) -> Seq<usize> {
        ids.subrange(self.range_start(ids, lower), self.range_end(ids, upper))
    }

    /// The tables of the list are there and in such an order that both positions can be found by
    /// binary search, and the positions are in order.
    pub open spec fn is_searchable(
        self,
        ids: Seq<usize>,
        lower: BoundView,
        upper: BoundView,
    ) -> bool {
        &&& forall|i: int| 0 <= i < ids.len() ==> self.sstables.contains_key(#[trigger] ids[i])
        &&& is_partitioned(ids, ends_below(self.sstables, lower))
        &&& is_partitioned(ids, starts_within(self.sstables, upper))
        &&& self.range_start(ids, lower) <= self.range_end(ids, upper)
    }

    /// The L0 tables that reach into the range.
    pub open spec fn l0_in_range(self, lower: BoundView, upper: BoundView) -> Seq<usize> {
        self.l0_sstables.filter(reaches_into(self.sstables, lower, upper))
    }
}

pub(crate) proof fn lemma_below_is_downward(a: Seq<u8>, b: Seq<u8>, upper: BoundView)
    requires
        bytes_le(a, b),
        below_upper(b, upper),
    ensures
        below_upper(a, upper),
{
    match upper {
        BoundView::Included(bound) | BoundView::Excluded(bound) => {
            if bytes_lt(a, b) && bytes_lt(b, bound) {
                lemma_bytes_lt_transitive(a, b, bound);
            }
        },
        BoundView::Unbounded => {},
    }
}

pub(crate) proof fn lemma_above_is_upward(a: Seq<u8>, b: Seq<u8>, lower: BoundView)
    requires
        bytes_le(a, b),
        above_lower(a, lower),
    ensures
        above_lower(b, lower),
{
    match lower {
        BoundView::Included(bound) | BoundView::Excluded(bound) => {
            if bytes_lt(bound, a) && bytes_lt(a, b) {
                lemma_bytes_lt_transitive(bound, a, b);
            }
        },
        BoundView::Unbounded => {},
    }
}

/// A key below the lower bound lies below every key of the range.
proof fn lemma_not_above_is_less(a: Seq<u8>, key: Seq<u8>, lower: BoundView)
    requires
        !above_lower(a, lower),
        above_lower(key, lower),
    ensures
        bytes_le(a, key),
{
    match lower {
        BoundView::Included(bound) | BoundView::Excluded(bound) => {
            lemma_bytes_lt_total(a, bound);
            if bytes_lt(a, bound) && bytes_lt(bound, key) {
                lemma_bytes_lt_transitive(a, bound, key);
            }
        },
        BoundView::Unbounded => {},
    }
}

/// A list sorted by key range can be searched for every range that holds a key.
pub proof fn lemma_sorted_run_is_searchable(
    v: StateView,
    ids: Seq<usize>,
    lower: BoundView,
    upper: BoundView,
    key: Seq<u8>,
)
    requires
        v.is_sorted_run(ids),
        above_lower(key, lower),
        below_upper(key, upper),
    ensures
        v.is_searchable(ids, lower, upper),
{
    let tables = v.sstables;
    let below = ends_below(tables, lower);
    let within = starts_within(tables, upper);
    lemma_run_is_partitioned(v, ids, lower, upper);
    lemma_prefix_len(ids, below);
    lemma_prefix_len(ids, within);
    let start = v.range_start(ids, lower);
    let end = v.range_end(ids, upper);
    if end < start {
        let table = tables[ids[end]];
        assert(below(ids[end]));
        assert(key_le(table.first_key, table.last_key));
        lemma_not_above_is_less(table.last_key.key, key, lower);
        if bytes_lt(table.first_key.key, table.last_key.key) && bytes_lt(table.last_key.key, key) {
            lemma_bytes_lt_transitive(table.first_key.key, table.last_key.key, key);
        }
        lemma_below_is_downward(table.first_key.key, key, upper);
        assert(within(ids[end]));
    }
}

proof fn lemma_run_is_partitioned(
    v: StateView,
    ids: Seq<usize>,
    lower: BoundView,
    upper: BoundView,
)
    requires
        v.is_sorted_run(ids),
    ensures
        is_partitioned(ids, ends_below(v.sstables, lower)),
        is_partitioned(ids, starts_within(v.sstables, upper)),
{
    let tables = v.sstables;
    let below = ends_below(tables, lower);
    let within = starts_within(tables, upper);
    assert forall|i: int, j: int| 0 <= i < j < ids.len() && below(#[trigger] ids[j]) implies below(
        #[trigger] ids[i],
    ) by {
        let (a, b) = (tables[ids[i]].last_key, tables[ids[j]].last_key);
        assert(key_le(a, b));
        if above_lower(a.key, lower) {
            lemma_above_is_upward(a.key, b.key, lower);
        }
    }
    assert forall|i: int, j: int|
        0 <= i < j < ids.len() && within(#[trigger] ids[j]) implies within(#[trigger] ids[i]) by {
        let (a, b) = (tables[ids[i]].first_key, tables[ids[j]].first_key);
        assert(key_le(a, b));
        lemma_below_is_downward(a.key, b.key, upper);
    }
}

pub(crate) proof fn lemma_filter_of_subrange(
    ids: Seq<usize>,
    p: spec_fn(usize) -> bool,
    start: int,
    end: int,
)
    requires
        0 <= start <= end <= ids.len(),
        forall|i: int| 0 <= i < ids.len() ==> p(#[trigger] ids[i]) == (start <= i < end),
    ensures
        ids.filter(p) == ids.subrange(start, end),
    decreases ids.len(),
{
    reveal(Seq::filter);
    if ids.len() > 0 {
        let front = ids.drop_last();
        let n = ids.len() as int;
        assert(p(ids[n - 1]) == (start <= n - 1 < end));
        assert forall|i: int| 0 <= i < front.len() implies p(#[trigger] front[i]) == (start <= i
            < end) by {
            assert(front[i] == ids[i]);
        }
        if end == n && start < n {
            lemma_filter_of_subrange(front, p, start, n - 1);
            assert(front.subrange(start, n - 1).push(ids[n - 1]) =~= ids.subrange(start, n));
        } else if start == n {
            lemma_filter_of_subrange(front, p, n - 1, n - 1);
            assert(front.subrange(n - 1, n - 1) =~= ids.subrange(n, n));
        } else {
            lemma_filter_of_subrange(front, p, start, end);
            assert(front.subrange(start, end) =~= ids.subrange(start, end));
        }
    } else {
        assert(ids.subrange(start, end) =~= ids);
    }
}

/// In a list that can be searched, binary search finds exactly the tables that reach into the
/// range.
pub proof fn lemma_range_is_what_overlaps(
    v: StateView,
    ids: Seq<usize>,
    lower: BoundView,
    upper: BoundView,
)
    requires
        v.is_searchable(ids, lower, upper),
    ensures
        v.range_of(ids, lower, upper) == ids.filter(reaches_into(v.sstables, lower, upper)),
{
    let below = ends_below(v.sstables, lower);
    let within = starts_within(v.sstables, upper);
    let start = v.range_start(ids, lower);
    let end = v.range_end(ids, upper);
    lemma_prefix_len(ids, below);
    lemma_prefix_len(ids, within);
    let p = reaches_into(v.sstables, lower, upper);
    assert forall|i: int| 0 <= i < ids.len() implies p(#[trigger] ids[i]) == (start <= i
        < end) by {
        assert(below(ids[i]) == (i < start)) by {
            if i >= start && below(ids[i]) {
                if i > start {
                    assert(below(ids[start]));
                }
            }
        }
        assert(within(ids[i]) == (i < end)) by {
            if i >= end && within(ids[i]) {
                if i > end {
                    assert(within(ids[end]));
                }
            }
        }
    }
    lemma_filter_of_subrange(ids, p, start, end);
}

impl LsmStorageState {
    /// Whether a table ends below the lower bound.
    fn ends_below(&self, id: usize, lower: &ScanBound<'_>) -> (below: bool)
        requires
            self@.sstables.contains_key(id),
        ensures
            below == ends_below(self@.sstables, lower@)(id),
    {
        !is_above_lower(self.table(id).last_key().as_key_slice().key_ref(), lower)
    }

    /// Whether a table does not start above the upper bound.
    fn starts_within(&self, id: usize, upper: &ScanBound<'_>) -> (within: bool)
        requires
            self@.sstables.contains_key(id),
        ensures
            within == starts_within(self@.sstables, upper@)(id),
    {
        is_below_upper(self.table(id).first_key().as_key_slice().key_ref(), upper)
    }

    /// The L0 tables that reach into the range, each of which is examined.
    pub fn filter_l0_sst(&self, lower: &ScanBound<'_>, upper: &ScanBound<'_>) -> (tables: Vec<
        Arc<SsTable>,
    >)
        requires
            forall|i: int|
                0 <= i < self@.l0_sstables.len() ==> self@.sstables.contains_key(
                    #[trigger] self@.l0_sstables[i],
                ),
        ensures
            tables_view(tables@) == self@.tables_of(self@.l0_in_range(lower@, upper@)),
    {
        let ids = &self.l0_sstables;
        let ghost p = reaches_into(self@.sstables, lower@, upper@);
        let mut chosen: Vec<usize> = Vec::new();
        let mut i: usize = 0;
        reveal(Seq::filter);
        while i < ids.len()
            invariant
                p == reaches_into(self@.sstables, lower@, upper@),
                ids@ == self@.l0_sstables,
                i <= ids@.len(),
                forall|k: int|
                    0 <= k < ids@.len() ==> self@.sstables.contains_key(#[trigger] ids@[k]),
                chosen@ == ids@.take(i as int).filter(p),
                forall|k: int|
                    0 <= k < chosen@.len() ==> self@.sstables.contains_key(#[trigger] chosen@[k]),
            decreases ids@.len() - i,
        {
            proof {
                reveal(Seq::filter);
                assert(ids@.take(i + 1).drop_last() =~= ids@.take(i as int));
                assert(ids@.take(i + 1).last() == ids@[i as int]);
            }
            if self.table(ids[i]).overlap(lower, upper) {
                chosen.push(ids[i]);
            }
            i += 1;
        }
        assert(ids@.take(i as int) =~= ids@);
        self.collect_sst_from_ids(chosen.as_slice())
    }

    /// The tables of a sorted list that reach into the range, found by binary search.
    pub fn filter_level_sst(
        &self,
        ids: &Vec<usize>,
        lower: &ScanBound<'_>,
        upper: &ScanBound<'_>,
    ) -> (tables: Vec<Arc<SsTable>>)
        requires
            self@.is_searchable(ids@, lower@, upper@),
        ensures
            tables_view(tables@) == self@.tables_of(self@.range_of(ids@, lower@, upper@)),
    {
        let ends_below_lower = |id: usize| -> (below: bool)
            requires
                self@.sstables.contains_key(id),
            ensures
                below == ends_below(self@.sstables, lower@)(id),
            { self.ends_below(id, lower) };
        let start: usize = partition_point(
            ids,
            ends_below_lower,
            Ghost(ends_below(self@.sstables, lower@)),
        );
        let starts_within_upper = |id: usize| -> (within: bool)
            requires
                self@.sstables.contains_key(id),
            ensures
                within == starts_within(self@.sstables, upper@)(id),
            { self.starts_within(id, upper) };
        let end: usize = partition_point(
            ids,
            starts_within_upper,
            Ghost(starts_within(self@.sstables, upper@)),
        );
        self.collect_sst_from_ids(vstd::slice::slice_subrange(ids.as_slice(), start, end))
    }

    /// Whether the tables of a list are there and in an order in which they can be searched.
    pub fn can_search(
        &self,
        ids: &Vec<usize>,
        lower: &ScanBound<'_>,
        upper: &ScanBound<'_>,
    ) -> (can: bool)
        ensures
            can == self@.is_searchable(ids@, lower@, upper@),
    {
        let mut i: usize = 0;
        while i < ids.len()
            invariant
                i <= ids@.len(),
                forall|k: int| 0 <= k < i ==> self@.sstables.contains_key(#[trigger] ids@[k]),
            decreases ids@.len() - i,
        {
            if !self.has_table(ids[i]) {
                assert(!self@.sstables.contains_key(ids@[i as int]));
                return false;
            }
            i += 1;
        }
        let ends_below_lower = |id: usize| -> (below: bool)
            requires
                self@.sstables.contains_key(id),
            ensures
                below == ends_below(self@.sstables, lower@)(id),
            { self.ends_below(id, lower) };
        let start = check_partitioned(
            ids,
            ends_below_lower,
            Ghost(ends_below(self@.sstables, lower@)),
        );
        let starts_within_upper = |id: usize| -> (within: bool)
            requires
                self@.sstables.contains_key(id),
            ensures
                within == starts_within(self@.sstables, upper@)(id),
            { self.starts_within(id, upper) };
        let end = check_partitioned(
            ids,
            starts_within_upper,
            Ghost(starts_within(self@.sstables, upper@)),
        );
        match (start, end) {
            (Some(start), Some(end)) => start <= end,
            _ => false,
        }
    }
}

/// One place to look a key up in.
#[derive(Debug)]
pub enum Lookup {
    /// The memtable with this number.
    Memtable(usize),
    /// An L0 table. Where there is a hash, the bloom filter of the table is asked for it first.
    Table { table: Arc<SsTable>, hash: Option<u32> },
    /// Tables sorted by key range, one after the other.
    Run(Vec<Arc<SsTable>>),
}

/// What a `Lookup` stands for.
#[verifier::ext_equal]
pub enum LookupView {
    Memtable(usize),
    Table { table: TableView, hash: Option<u32> },
    Run(Seq<TableView>),
}

impl View for Lookup {
    type V = LookupView;

    open spec fn view(&self) -> LookupView {
        match self {
            Lookup::Memtable(id) => LookupView::Memtable(*id),
            Lookup::Table { table, hash } => LookupView::Table { table: table@, hash: *hash },
            Lookup::Run(tables) => LookupView::Run(tables_view(tables@)),
        }
    }
}

impl StateView {
    /// In how many places a key is looked up: the memtables, the L0 tables, the levels.
    pub open spec fn lookup_count(self) -> nat {
        1 + self.imm_memtables.len() + self.l0_sstables.len() + self.levels.len()
    }

    /// The L0 table of a step, which comes after the memtables.
    pub open spec fn l0_of_step(self, step: int) -> usize {
        self.l0_sstables[step - 1 - self.imm_memtables.len()]
    }

    /// The level of a step, which comes after the L0 tables.
    pub open spec fn level_of_step(self, step: int) -> int {
        step - self.imm_memtables.len() - self.l0_sstables.len()
    }

    /// The place to look a key up in at a step.
    pub open spec fn lookup(self, key: Seq<u8>, step: int) -> LookupView {
        if step == 0 {
            LookupView::Memtable(self.memtable)
        } else if step <= self.imm_memtables.len() {
            LookupView::Memtable(self.imm_memtables[step - 1])
        } else if step <= self.imm_memtables.len() + self.l0_sstables.len() {
            let table = self.sstables[self.l0_of_step(step)];
            LookupView::Table {
                table,
                hash: if table.has_bloom {
                    Some(farm_hash(key))
                } else {
                    None
                },
            }
        } else {
            let bound = BoundView::Included(key);
            let ids = self.level_ids(self.level_of_step(step));
            LookupView::Run(self.tables_of(self.range_of(ids, bound, bound)))
        }
    }

    /// The place of a step can be told: an L0 table is there, and the key can be hashed if the
    /// table has a bloom filter; a level can be searched.
    pub open spec fn can_look(self, key: Seq<u8>, step: int) -> bool {
        if step <= self.imm_memtables.len() {
            true
        } else if step <= self.imm_memtables.len() + self.l0_sstables.len() {
            let id = self.l0_of_step(step);
            self.sstables.contains_key(id) && (self.sstables[id].has_bloom ==> sums_fit(key))
        } else {
            let bound = BoundView::Included(key);
            self.is_searchable(self.level_ids(self.level_of_step(step)), bound, bound)
        }
    }
}

/// What to do next in looking a key up.
#[derive(Debug)]
pub enum GetAction {
    /// Look the key up, and come back with what was found.
    Look(Lookup),
    /// This is the value of the key.
    Return(Option<Bytes>),
}

/// What a `GetAction` stands for.
#[verifier::ext_equal]
pub enum GetActionView {
    Look(LookupView),
    Return(Option<Seq<u8>>),
}

/// The bytes that an optional `Bytes` holds.
pub open spec fn optional_bytes(value: Option<Bytes>) -> Option<Seq<u8>> {
    match value {
        Some(value) => Some(bytes_view(value)),
        None => None,
    }
}

/// The bytes of an optional slice.
pub open spec fn optional_slice(slice: Option<&[u8]>) -> Option<Seq<u8>> {
    match slice {
        Some(slice) => Some(slice@),
        None => None,
    }
}

impl View for GetAction {
    type V = GetActionView;

    open spec fn view(&self) -> GetActionView {
        match self {
            GetAction::Look(lookup) => GetActionView::Look(lookup@),
            GetAction::Return(value) => GetActionView::Return(optional_bytes(*value)),
        }
    }
}

/// What a stored value stands for: an empty one for a deleted key.
pub open spec fn live_value(value: Seq<u8>) -> Option<Seq<u8>> {
    if value.len() == 0 {
        None
    } else {
        Some(value)
    }
}

impl StateView {
    /// What to do at a step, given what the step before it found.
    pub open spec fn get_action(
        self,
        key: Seq<u8>,
        step: int,
        found: Option<Seq<u8>>,
    ) -> GetActionView {
        match found {
            Some(value) => GetActionView::Return(live_value(value)),
            None => if step < self.lookup_count() {
                GetActionView::Look(self.lookup(key, step))
            } else {
                GetActionView::Return(None)
            },
        }
    }

    /// What looking a key up from a step on returns, if `found(i)` is what step `i` finds and
    /// `last` is what the step before it found.
    pub open spec fn get_from(
        self,
        key: Seq<u8>,
        found: spec_fn(int) -> Option<Seq<u8>>,
        step: int,
        last: Option<Seq<u8>>,
    ) -> Option<Seq<u8>>
        decreases self.lookup_count() - step,
    {
        match self.get_action(key, step, last) {
            GetActionView::Return(value) => value,
            GetActionView::Look(_) => self.get_from(key, found, step + 1, found(step)),
        }
    }
}

/// A key has the value that the first step finds at which anything is found, in the order of
/// `lookup`: the latest write counts. Where nothing is found it has none.
pub proof fn lemma_get_returns_first_found(
    v: StateView,
    key: Seq<u8>,
    found: spec_fn(int) -> Option<Seq<u8>>,
    first: int,
)
    requires
        0 <= first <= v.lookup_count(),
        forall|i: int| 0 <= i < first ==> (#[trigger] found(i)) is None,
        first < v.lookup_count() ==> found(first) is Some,
    ensures
        v.get_from(key, found, 0, None) == (if first < v.lookup_count() {
            live_value(found(first)->Some_0)
        } else {
            None
        }),
{
    lemma_get_goes_on(v, key, found, 0, first);
    if first < v.lookup_count() {
        assert(v.get_from(key, found, first, None) == v.get_from(
            key,
            found,
            first + 1,
            found(first),
        ));
    }
}

proof fn lemma_get_goes_on(
    v: StateView,
    key: Seq<u8>,
    found: spec_fn(int) -> Option<Seq<u8>>,
    step: int,
    first: int,
)
    requires
        0 <= step <= first <= v.lookup_count(),
        forall|i: int| step <= i < first ==> (#[trigger] found(i)) is None,
    ensures
        v.get_from(key, found, step, None) == v.get_from(key, found, first, None),
    decreases first - step,
{
    if step < first {
        assert(found(step) is None);
        lemma_get_goes_on(v, key, found, step + 1, first);
    }
}

/// Where each L0 table is there, each level is sorted by key range, and the key can be hashed,
/// every step of looking it up can be told.
pub proof fn lemma_can_look_everywhere(v: StateView, key: Seq<u8>, step: int)
    requires
        v.holds(v.l0_sstables),
        v.levels_sorted(),
        sums_fit(key),
        0 <= step < v.lookup_count(),
    ensures
        v.can_look(key, step),
{
    let before = v.imm_memtables.len() + v.l0_sstables.len();
    if step > before {
        let bound = BoundView::Included(key);
        let ids = v.level_ids(v.level_of_step(step));
        lemma_sorted_run_is_searchable(v, ids, bound, bound, key);
    } else if step > v.imm_memtables.len() {
        assert(v.sstables.contains_key(v.l0_sstables[step - 1 - v.imm_memtables.len()]));
    }
}

impl LsmStorageState {
    /// Whether the place of a step can be told.
    pub fn can_look(&self, key: &[u8], step: usize) -> (can: bool)
        requires
            step < self@.lookup_count(),
        ensures
            can == self@.can_look(key@, step as int),
    {
        assert(self.imm_memtables@.len() == self@.imm_memtables.len());
        assert(self.levels@.len() == self@.levels.len());
        let imm_len: usize = self.imm_memtables.len();
        let l0_len: usize = self.l0_sstables.len();
        if step <= imm_len {
            true
        } else if step - imm_len <= l0_len {
            let id: usize = self.l0_sstables[step - imm_len - 1];
            self.has_table(id) && (!self.table(id).has_bloom() || can_hash(key))
        } else {
            let bound = ScanBound::Included(key);
            self.can_search(self.level(step - imm_len - l0_len), &bound, &bound)
        }
    }

    /// What to do at a step of looking a key up, given what the step before it found.
    pub fn get_action(&self, key: &[u8], step: usize, found: Option<&[u8]>) -> (action: GetAction)
        requires
            found is None && step < self@.lookup_count() ==> self@.can_look(key@, step as int),
        ensures
            action@ == self@.get_action(key@, step as int, optional_slice(found)),
    {
        if let Some(value) = found {
            if value.len() == 0 {
                return GetAction::Return(None);
            }
            return GetAction::Return(Some(bytes_copy_from_slice(value)));
        }
        assert(self.imm_memtables@.len() == self@.imm_memtables.len());
        assert(self.levels@.len() == self@.levels.len());
        let imm_len: usize = self.imm_memtables.len();
        let l0_len: usize = self.l0_sstables.len();
        if step == 0 {
            return GetAction::Look(Lookup::Memtable(self.memtable.id()));
        }
        if step <= imm_len {
            return GetAction::Look(Lookup::Memtable(self.imm_memtables[step - 1].id()));
        }
        if step - imm_len <= l0_len {
            return GetAction::Look(self.l0_lookup(key, self.l0_sstables[step - imm_len - 1]));
        }
        let level: usize = step - imm_len - l0_len;
        if level <= self.levels.len() {
            let bound = ScanBound::Included(key);
            let tables = self.filter_level_sst(self.level(level), &bound, &bound);
            return GetAction::Look(Lookup::Run(tables));
        }
        GetAction::Return(None)
    }

    /// How a key is looked up in an L0 table.
    fn l0_lookup(&self, key: &[u8], id: usize) -> (lookup: Lookup)
        requires
            self@.sstables.contains_key(id),
            self@.sstables[id].has_bloom ==> sums_fit(key@),
        ensures
            lookup@ == (LookupView::Table {
                table: self@.sstables[id],
                hash: if self@.sstables[id].has_bloom {
                    Some(farm_hash(key@))
                } else {
                    None
                },
            }),
    {
        broadcast use vstd::std_specs::hash::group_hash_axioms;

        let table = self.sstables.get(&id).unwrap().clone();
        let hash = if table.has_bloom() {
            Some(hash32(key))
        } else {
            None
        };
        Lookup::Table { table, hash }
    }
}

/// The value of a key that stands at the front of some entries.
pub open spec fn front_value(entries: Seq<EntryView>, key: Seq<u8>) -> Option<Seq<u8>> {
    if entries.len() > 0 && entries[0].0.key == key {
        Some(entries[0].1)
    } else {
        None
    }
}

/// The value at which an iterator stands that was moved to the key, if it stands at the key.
pub fn found_value<'a, I: StorageIterator>(iter: &'a I, key: &[u8]) -> (value: Option<&'a [u8]>)
    requires
        iter.wf(),
    ensures
        optional_slice(value) == front_value(iter.remaining(), key@),
{
    if iter.is_valid() && bytes_equal(iter.key().key_ref(), key) {
        Some(iter.value())
    } else {
        None
    }
}

/// The entries without the first one, if that is the key of an excluded lower bound.
pub open spec fn after_excluded(entries: Seq<EntryView>, lower: BoundView) -> Seq<EntryView> {
    match lower {
        BoundView::Excluded(key) => if front_value(entries, key) is Some {
            entries.drop_first()
        } else {
            entries
        },
        _ => entries,
    }
}

/// Moves an iterator that was moved to the lower bound of a range on to the first entry of the
/// range. If that fails, the failure is that of the iterator.
pub fn skip_excluded<I: StorageIterator>(iter: &mut I, lower: &ScanBound<'_>) -> (result: Result<
    (),
    IterError,
>)
    requires
        old(iter).wf(),
    ensures
        result is Ok ==> final(iter).wf() && final(iter).remaining() == after_excluded(
            old(iter).remaining(),
            lower@,
        ),
        if after_excluded(old(iter).remaining(), lower@) == old(iter).remaining() {
            result is Ok && *final(iter) == *old(iter)
        } else {
            old(iter).can_end_in(failure_of(result))
        },
        old(iter).is_infallible() ==> result is Ok && final(iter).is_infallible(),
{
    if let ScanBound::Excluded(key) = lower {
        if iter.is_valid() && bytes_equal(iter.key().key_ref(), key) {
            proof {
                assert(iter.remaining().drop_first().len() < iter.remaining().len());
            }
            return iter.next();
        }
    }
    Ok(())
}

/// What the entries of a range are gathered from, each list with the latest entries first.
#[derive(Debug)]
pub struct ScanPlan {
    /// The numbers of the memtables.
    pub memtables: Vec<usize>,
    /// The L0 tables.
    pub l0: Vec<Arc<SsTable>>,
    /// The tables of each level.
    pub levels: Vec<Vec<Arc<SsTable>>>,
}

/// What a `ScanPlan` stands for.
#[verifier::ext_equal]
pub struct ScanPlanView {
    pub memtables: Seq<usize>,
    pub l0: Seq<TableView>,
    pub levels: Seq<Seq<TableView>>,
}

impl View for ScanPlan {
    type V = ScanPlanView;

    open spec fn view(&self) -> ScanPlanView {
        ScanPlanView {
            memtables: self.memtables@,
            l0: tables_view(self.l0@),
            levels: self.levels@.map_values(|tables: Vec<Arc<SsTable>>| tables_view(tables@)),
        }
    }
}

impl StateView {
    /// The tables of a range can be told: the L0 tables are there, and each level can be searched.
    pub open spec fn can_scan(self, lower: BoundView, upper: BoundView) -> bool {
        &&& forall|i: int|
            0 <= i < self.l0_sstables.len() ==> self.sstables.contains_key(
                #[trigger] self.l0_sstables[i],
            )
        &&& forall|level: int|
            1 <= level <= self.levels.len() ==> self.is_searchable(
                #[trigger] self.level_ids(level),
                lower,
                upper,
            )
    }

    /// All memtables, and of the tables those that reach into the range.
    pub open spec fn scan_plan(self, lower: BoundView, upper: BoundView) -> ScanPlanView {
        ScanPlanView {
            memtables: seq![self.memtable] + self.imm_memtables,
            l0: self.tables_of(self.l0_in_range(lower, upper)),
            levels: Seq::new(
                self.levels.len(),
                |i: int| self.tables_of(self.range_of(self.level_ids(i + 1), lower, upper)),
            ),
        }
    }
}

/// Where each L0 table is there and each level is sorted by key range, the tables of every range
/// that holds a key can be told.
pub proof fn lemma_can_scan(v: StateView, lower: BoundView, upper: BoundView, key: Seq<u8>)
    requires
        v.holds(v.l0_sstables),
        v.levels_sorted(),
        above_lower(key, lower),
        below_upper(key, upper),
    ensures
        v.can_scan(lower, upper),
{
    assert forall|level: int| 1 <= level <= v.levels.len() implies v.is_searchable(
        #[trigger] v.level_ids(level),
        lower,
        upper,
    ) by {
        lemma_sorted_run_is_searchable(v, v.level_ids(level), lower, upper, key);
    }
}

impl LsmStorageState {
    /// Whether the tables of a range can be told.
    pub fn can_scan(&self, lower: &ScanBound<'_>, upper: &ScanBound<'_>) -> (can: bool)
        ensures
            can == self@.can_scan(lower@, upper@),
    {
        let mut i: usize = 0;
        while i < self.l0_sstables.len()
            invariant
                i <= self@.l0_sstables.len(),
                forall|k: int|
                    0 <= k < i ==> self@.sstables.contains_key(#[trigger] self@.l0_sstables[k]),
            decreases self@.l0_sstables.len() - i,
        {
            if !self.has_table(self.l0_sstables[i]) {
                assert(!self@.sstables.contains_key(self@.l0_sstables[i as int]));
                return false;
            }
            i += 1;
        }
        let n: usize = self.levels.len();
        assert(n == self@.levels.len());
        let mut i: usize = 0;
        while i < n
            invariant
                i <= n == self@.levels.len(),
                forall|level: int|
                    1 <= level <= i ==> self@.is_searchable(
                        #[trigger] self@.level_ids(level),
                        lower@,
                        upper@,
                    ),
            decreases n - i,
        {
            if !self.can_search(self.level(i + 1), lower, upper) {
                assert(!self@.is_searchable(self@.level_ids(i + 1), lower@, upper@));
                return false;
            }
            i += 1;
        }
        true
    }

    /// What the entries of a range are gathered from.
    pub fn scan_plan(&self, lower: &ScanBound<'_>, upper: &ScanBound<'_>) -> (plan: ScanPlan)
        requires
            self@.can_scan(lower@, upper@),
        ensures
            plan@ == self@.scan_plan(lower@, upper@),
    {
        let mut memtables: Vec<usize> = Vec::new();
        memtables.push(self.memtable.id());
        let mut i: usize = 0;
        while i < self.imm_memtables.len()
            invariant
                i <= self.imm_memtables@.len(),
                memtables@ =~= seq![self@.memtable] + self@.imm_memtables.take(i as int),
            decreases self.imm_memtables@.len() - i,
        {
            memtables.push(self.imm_memtables[i].id());
            i += 1;
        }
        assert(self@.imm_memtables.take(i as int) =~= self@.imm_memtables);
        let l0 = self.filter_l0_sst(lower, upper);
        let n: usize = self.levels.len();
        assert(n == self@.levels.len());
        let mut levels: Vec<Vec<Arc<SsTable>>> = Vec::new();
        let mut i: usize = 0;
        while i < n
            invariant
                i <= n == self@.levels.len(),
                self@.can_scan(lower@, upper@),
                levels@.len() == i,
                forall|k: int|
                    0 <= k < i ==> tables_view((#[trigger] levels@[k])@) == self@.scan_plan(
                        lower@,
                        upper@,
                    ).levels[k],
            decreases n - i,
        {
            assert(self@.is_searchable(self@.level_ids(i + 1), lower@, upper@));
            levels.push(self.filter_level_sst(self.level(i + 1), lower, upper));
            i += 1;
        }
        let plan = ScanPlan { memtables, l0, levels };
        assert(plan@.levels =~= self@.scan_plan(lower@, upper@).levels);
        plan
    }
}

} // verus!
