//! Where a key is looked up, and what comes of it when bloom filters are asked first.

use vstd::prelude::*;

use super::contents::{
    lemma_read_gives_back_write, lemma_read_returns_newest, newest, written, Contents,
};
use super::read::{
    lemma_range_is_what_overlaps, lemma_sorted_run_is_searchable, reaches_into, GetActionView,
    LookupView,
};
use super::{ids_of, StateView};
use crate::hash::farm_hash;
use crate::key::bytes_le;
use crate::table::BoundView;

verus! {

/// What to do at each step of looking a key up. What the step before found is the value of the
/// key, an empty one standing for a deletion. As long as nothing is found, the key is looked up in
/// the current memtable, then in the immutable ones, the L0 tables and the levels, in their order.
/// A table with a bloom filter is asked for the hash of exactly this key, and one without for
/// none. In a level those tables are looked at whose key range holds the key, and no others.
pub proof fn lemma_get_action(v: StateView, key: Seq<u8>, step: int, found: Option<Seq<u8>>)
    requires
        0 <= step,
        v.levels_sorted(),
    ensures
        ({
            let imm = v.imm_memtables.len() as int;
            let l0 = v.l0_sstables.len() as int;
            let action = v.get_action(key, step, found);
            &&& found matches Some(value) ==> action == GetActionView::Return(
                if value.len() == 0 {
                    None
                } else {
                    Some(value)
                },
            )
            &&& found is None && step == 0 ==> action == GetActionView::Look(
                LookupView::Memtable(v.memtable),
            )
            &&& found is None && 1 <= step <= imm ==> action == GetActionView::Look(
                LookupView::Memtable(v.imm_memtables[step - 1]),
            )
            &&& found is None && imm < step <= imm + l0 ==> {
                let table = v.sstables[v.l0_sstables[step - imm - 1]];
                action == GetActionView::Look(
                    LookupView::Table {
                        table,
                        hash: if table.has_bloom {
                            Some(farm_hash(key))
                        } else {
                            None
                        },
                    },
                )
            }
            &&& found is None && imm + l0 < step <= imm + l0 + v.levels.len() ==> action
                == GetActionView::Look(
                LookupView::Run(
                    v.levels[step - imm - l0 - 1].1.filter(
                        |id: usize|
                            bytes_le(v.sstables[id].first_key.key, key) && bytes_le(
                                key,
                                v.sstables[id].last_key.key,
                            ),
                    ).map_values(|id: usize| v.sstables[id]),
                ),
            )
            &&& found is None && step > imm + l0 + v.levels.len() ==> action
                == GetActionView::Return(None)
        }),
{
    let imm = v.imm_memtables.len() as int;
    let l0 = v.l0_sstables.len() as int;
    if found is None && imm + l0 < step <= imm + l0 + v.levels.len() {
        let level = step - imm - l0;
        let ids = v.level_ids(level);
        let bound = BoundView::Included(key);
        assert(v.is_sorted_run(ids));
        lemma_sorted_run_is_searchable(v, ids, bound, bound, key);
        lemma_range_is_what_overlaps(v, ids, bound, bound);
        let p = |id: usize|
            bytes_le(v.sstables[id].first_key.key, key) && bytes_le(
                key,
                v.sstables[id].last_key.key,
            );
        assert(p =~= reaches_into(v.sstables, bound, bound));
        let tables = v.tables_of(v.range_of(ids, bound, bound));
        assert(tables =~= ids.filter(p).map_values(|id: usize| v.sstables[id]));
    }
}

/// Which hashes the bloom filter of each table lets through.
pub type Filters = spec_fn(usize, u32) -> bool;

/// A bloom filter lets through the hash of each key that its table holds.
pub open spec fn admit_held_keys(v: StateView, contents: Contents, filters: Filters) -> bool {
    forall|id: usize, key: Seq<u8>|
        v.sstables.contains_key(id) && v.sstables[id].has_bloom && #[trigger] contents(
            id,
        ).contains_key(key) ==> filters(id, farm_hash(key))
}

impl StateView {
    /// What a step of looking a key up finds. In a table whose bloom filter is asked for a hash
    /// that it does not let through, nothing is found.
    pub open spec fn found_through(
        self,
        contents: Contents,
        filters: Filters,
        key: Seq<u8>,
    ) -> spec_fn(int) -> Option<Seq<u8>> {
        |step: int|
            match self.get_action(key, step, None) {
                GetActionView::Look(LookupView::Memtable(id)) => newest(contents, seq![id], key),
                GetActionView::Look(LookupView::Table { table, hash }) => if hash is Some
                    && !filters(table.id, hash->Some_0) {
                    None
                } else {
                    newest(contents, seq![table.id], key)
                },
                GetActionView::Look(LookupView::Run(tables)) => newest(
                    contents,
                    ids_of(tables),
                    key,
                ),
                GetActionView::Return(_) => None,
            }
    }
}

proof fn lemma_same_finds(
    v: StateView,
    key: Seq<u8>,
    a: spec_fn(int) -> Option<Seq<u8>>,
    b: spec_fn(int) -> Option<Seq<u8>>,
    step: int,
    last: Option<Seq<u8>>,
)
    requires
        0 <= step,
        forall|i: int| 0 <= i < v.lookup_count() ==> #[trigger] a(i) == b(i),
    ensures
        v.get_from(key, a, step, last) == v.get_from(key, b, step, last),
    decreases v.lookup_count() - step,
{
    if last is None && step < v.lookup_count() {
        assert(a(step) == b(step));
        lemma_same_finds(v, key, a, b, step + 1, a(step));
    }
}

/// A read returns the latest value that was written, nothing where that is a deletion or there is
/// none, though a table is passed over if its bloom filter does not let the hash through that it is
/// asked for. All that is needed of a filter is that it lets through the hash of each key that its
/// table holds.
pub proof fn lemma_read_through_filters_returns_newest(
    v: StateView,
    contents: Contents,
    filters: Filters,
    key: Seq<u8>,
)
    requires
        v.is_readable(contents),
        admit_held_keys(v, contents, filters),
    ensures
        v.get_from(key, v.found_through(contents, filters, key), 0, None) == (match newest(
            contents,
            v.recency(),
            key,
        ) {
            Some(value) => if value.len() == 0 {
                None
            } else {
                Some(value)
            },
            None => None,
        }),
{
    let a = v.found_through(contents, filters, key);
    let b = v.found(contents, key);
    assert forall|i: int| 0 <= i < v.lookup_count() implies #[trigger] a(i) == b(i) by {
        if let LookupView::Table { table, hash } = v.lookup(key, i) {
            let id = v.l0_sstables[i - 1 - v.imm_memtables.len()];
            assert(v.sstables.contains_key(id) && v.sstables[id].id == id);
            if hash is Some && !filters(table.id, hash->Some_0) {
                assert(!contents(id).contains_key(key));
                assert(seq![id].drop_first() =~= Seq::empty());
                assert(newest(contents, seq![id].drop_first(), key) is None);
            }
        }
    }
    lemma_same_finds(v, key, a, b, 0, None);
    lemma_read_returns_newest(v, contents, key);
}

/// A read gives back what was written last, and nothing where that was an empty value. Other keys
/// keep their values.
pub proof fn lemma_write_is_read(
    v: StateView,
    contents: Contents,
    key: Seq<u8>,
    value: Seq<u8>,
    other: Seq<u8>,
)
    requires
        v.is_readable(contents),
        v.recency().no_duplicates(),
        !v.sstables.contains_key(v.memtable),
    ensures
        ({
            let after = |id: usize|
                if id == v.memtable {
                    contents(id).insert(key, value)
                } else {
                    contents(id)
                };
            &&& v.value_of(after, key) == (if value.len() == 0 {
                None
            } else {
                Some(value)
            })
            &&& other != key ==> v.value_of(after, other) == v.value_of(contents, other)
        }),
{
    let after = |id: usize|
        if id == v.memtable {
            contents(id).insert(key, value)
        } else {
            contents(id)
        };
    assert(after =~= written(v, contents, key, value));
    lemma_read_gives_back_write(v, contents, key, value, other);
}

} // verus!
