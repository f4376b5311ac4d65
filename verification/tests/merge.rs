use mini_lsm::compact::output::{EntryAction, TableSplitter};
use mini_lsm::iterators::two_merge_iterator::TwoMergeIterator;
use mini_lsm::iterators::{IterError, StorageIterator};
use mini_lsm::key::KeySlice;
use mini_lsm::lsm_storage::read::{found_value, skip_excluded};
use mini_lsm::table::{is_below_upper, ScanBound};

type Entry = (Vec<u8>, u64, Vec<u8>);

/// An iterator over given entries that fails with `message` once it has moved `fuel` times.
struct VecIterator {
    entries: Vec<Entry>,
    at: usize,
    fuel: usize,
    message: String,
}

impl StorageIterator for VecIterator {
    fn key(&self) -> KeySlice<'_> {
        KeySlice::from_slice(&self.entries[self.at].0, self.entries[self.at].1)
    }

    fn value(&self) -> &[u8] {
        &self.entries[self.at].2
    }

    fn is_valid(&self) -> bool {
        self.at < self.entries.len()
    }

    fn next(&mut self) -> Result<(), IterError> {
        if self.fuel == 0 {
            return Err(IterError { message: self.message.clone() });
        }
        self.fuel -= 1;
        self.at += 1;
        Ok(())
    }
}

fn iterator(entries: &[(&str, u64, &str)]) -> VecIterator {
    VecIterator {
        entries: entries
            .iter()
            .map(|(k, ts, v)| (k.as_bytes().to_vec(), *ts, v.as_bytes().to_vec()))
            .collect(),
        at: 0,
        fuel: usize::MAX,
        message: "out of fuel".to_string(),
    }
}

fn drain<I: StorageIterator>(iter: &mut I) -> Vec<(String, u64, String)> {
    let mut out = Vec::new();
    while iter.is_valid() {
        out.push((
            String::from_utf8(iter.key().key_ref().to_vec()).unwrap(),
            iter.key().ts(),
            String::from_utf8(iter.value().to_vec()).unwrap(),
        ));
        iter.next().unwrap();
    }
    out
}

fn entry(k: &str, ts: u64, v: &str) -> (String, u64, String) {
    (k.to_string(), ts, v.to_string())
}

#[test]
fn the_first_iterator_wins_where_both_have_a_key() {
    let a = iterator(&[("a", 0, "a1"), ("c", 0, "a2")]);
    let b = iterator(&[("a", 0, "b1"), ("b", 0, "b2"), ("c", 0, "b3"), ("d", 0, "b4")]);
    let mut merged = TwoMergeIterator::create(a, b).unwrap();
    assert_eq!(
        drain(&mut merged),
        vec![entry("a", 0, "a1"), entry("b", 0, "b2"), entry("c", 0, "a2"), entry("d", 0, "b4")]
    );
    assert!(!merged.is_valid());
}

#[test]
fn versions_of_a_key_are_merged_latest_first() {
    let a = iterator(&[("a", 5, "a5"), ("a", 2, "a2")]);
    let b = iterator(&[("a", 4, "b4"), ("a", 2, "b2")]);
    let mut merged = TwoMergeIterator::create(a, b).unwrap();
    assert_eq!(
        drain(&mut merged),
        vec![entry("a", 5, "a5"), entry("a", 4, "b4"), entry("a", 2, "a2")]
    );
}

#[test]
fn merging_with_nothing_changes_nothing() {
    let mut merged =
        TwoMergeIterator::create(iterator(&[("x", 0, "1")]), iterator(&[])).unwrap();
    assert_eq!(drain(&mut merged), vec![entry("x", 0, "1")]);
    let mut merged =
        TwoMergeIterator::create(iterator(&[]), iterator(&[("x", 0, "1")])).unwrap();
    assert_eq!(drain(&mut merged), vec![entry("x", 0, "1")]);
    let merged = TwoMergeIterator::create(iterator(&[]), iterator(&[])).unwrap();
    assert!(!merged.is_valid());
}

#[test]
fn choosing_prefers_the_first_iterator() {
    let full = iterator(&[("k", 1, "")]);
    let same = iterator(&[("k", 1, "")]);
    let later = iterator(&[("l", 1, "")]);
    let empty = iterator(&[]);
    assert!(TwoMergeIterator::choose_first(&full, &same));
    assert!(TwoMergeIterator::choose_first(&full, &later));
    assert!(!TwoMergeIterator::choose_first(&later, &full));
    assert!(!TwoMergeIterator::choose_first(&empty, &full));
    assert!(TwoMergeIterator::choose_first(&empty, &empty));
}

#[test]
fn a_failure_to_move_on_is_passed_on() {
    let a = iterator(&[("a", 0, "1")]);
    let mut b = iterator(&[("a", 0, "2")]);
    b.fuel = 0;
    let mut merged = TwoMergeIterator::create(a, b).unwrap();
    let error = merged.next().unwrap_err();
    assert_eq!(error.message, "out of fuel");
}

/// An iterator that fails at once.
fn failing(entries: &[(&str, u64, &str)], message: &str) -> VecIterator {
    VecIterator { fuel: 0, message: message.to_string(), ..iterator(entries) }
}

/// The message with which the merge of two iterators fails to move on.
fn failure(a: VecIterator, b: VecIterator) -> String {
    TwoMergeIterator::create(a, b).unwrap().next().unwrap_err().message
}

#[test]
fn the_failure_is_that_of_the_iterator_that_failed() {
    let (k, l) = ([("k", 0, "1")], [("l", 0, "2")]);
    // With one key, the second iterator is moved first.
    assert_eq!(failure(failing(&k, "first"), failing(&k, "second")), "second");
    assert_eq!(failure(iterator(&k), failing(&k, "second")), "second");
    assert_eq!(failure(failing(&k, "first"), iterator(&k)), "first");
    // With two keys, only the one with the lesser key is moved.
    assert_eq!(failure(failing(&k, "first"), failing(&l, "second")), "first");
    assert_eq!(failure(failing(&l, "first"), failing(&k, "second")), "second");
    let mut iter = failing(&k, "alone");
    let error = skip_excluded(&mut iter, &ScanBound::Excluded(b"k")).unwrap_err();
    assert_eq!(error.message, "alone");
    assert!(skip_excluded(&mut iter, &ScanBound::Excluded(b"j")).is_ok());
}

#[test]
fn a_value_is_found_only_at_its_key() {
    let iter = iterator(&[("k", 3, "v")]);
    assert_eq!(found_value(&iter, b"k"), Some(&b"v"[..]));
    assert_eq!(found_value(&iter, b"j"), None);
    assert_eq!(found_value(&iterator(&[]), b"k"), None);
}

#[test]
fn an_excluded_key_is_skipped() {
    let entries = [("k", 0, "1"), ("l", 0, "2")];
    let mut iter = iterator(&entries);
    skip_excluded(&mut iter, &ScanBound::Excluded(b"k")).unwrap();
    assert_eq!(iter.key().key_ref(), b"l");
    let mut iter = iterator(&entries);
    skip_excluded(&mut iter, &ScanBound::Included(b"k")).unwrap();
    assert_eq!(iter.key().key_ref(), b"k");
    skip_excluded(&mut iter, &ScanBound::Excluded(b"j")).unwrap();
    assert_eq!(iter.key().key_ref(), b"k");
    skip_excluded(&mut iter, &ScanBound::Unbounded).unwrap();
    assert_eq!(iter.key().key_ref(), b"k");
    iter.fuel = 0;
    assert!(skip_excluded(&mut iter, &ScanBound::Excluded(b"k")).is_err());
}

/// Divides values among tables, each entry counting the length of its value.
fn split(values: &[&str], bottom: bool, target: usize) -> Vec<Vec<String>> {
    let mut splitter = TableSplitter::new(bottom, target);
    let mut tables: Vec<Vec<String>> = Vec::new();
    let mut open: Vec<String> = Vec::new();
    for value in values {
        match splitter.next_entry(value.as_bytes()) {
            EntryAction::Drop => continue,
            EntryAction::StartTable => {
                assert!(open.is_empty());
                open.push(value.to_string());
            }
            EntryAction::Append => {
                assert!(!open.is_empty());
                open.push(value.to_string());
            }
        }
        let size = open.iter().map(|v| v.len()).sum();
        if splitter.entry_added(size) {
            tables.push(std::mem::take(&mut open));
        }
    }
    if splitter.finish() {
        tables.push(open);
    }
    tables
}

#[test]
fn tables_are_complete_at_the_target_size() {
    assert_eq!(
        split(&["aa", "b", "cc", "d"], false, 3),
        vec![vec!["aa", "b"], vec!["cc", "d"]]
    );
    assert_eq!(split(&["aa", "b", "cc"], false, 3), vec![vec!["aa", "b"], vec!["cc"]]);
    assert_eq!(split(&[], false, 3), Vec::<Vec<String>>::new());
}

#[test]
fn deletions_are_dropped_only_at_the_bottom() {
    assert_eq!(split(&["", "a", ""], true, 10), vec![vec!["a"]]);
    assert_eq!(split(&["", "a", ""], false, 10), vec![vec!["", "a", ""]]);
    assert_eq!(split(&["", ""], true, 10), Vec::<Vec<String>>::new());
}

/// Divides entries among tables, each entry counting one.
fn write_tables(
    entries: &[(String, u64, String)],
    bottom: bool,
    target: usize,
) -> Vec<Vec<(String, u64, String)>> {
    let mut splitter = TableSplitter::new(bottom, target);
    let mut tables: Vec<Vec<(String, u64, String)>> = Vec::new();
    let mut open = Vec::new();
    for e in entries {
        if splitter.next_entry(e.2.as_bytes()) == EntryAction::Drop {
            continue;
        }
        open.push(e.clone());
        if splitter.entry_added(open.len()) {
            tables.push(std::mem::take(&mut open));
        }
    }
    if splitter.finish() {
        tables.push(open);
    }
    tables
}

#[test]
fn new_tables_stand_for_the_tables_merged() {
    // Two L0 tables, the later one first, over a level.
    let later = [("b", 0, "b2"), ("c", 0, "")];
    let earlier = [("a", 0, "a1"), ("b", 0, "b1"), ("d", 0, "")];
    let level = [("c", 0, "c0"), ("d", 0, "d0"), ("e", 0, "e0")];
    let read = || {
        let upper = TwoMergeIterator::create(iterator(&later), iterator(&earlier)).unwrap();
        drain(&mut TwoMergeIterator::create(upper, iterator(&level)).unwrap())
    };
    let (a, b, e) = (entry("a", 0, "a1"), entry("b", 0, "b2"), entry("e", 0, "e0"));
    let (c, d) = (entry("c", 0, ""), entry("d", 0, ""));
    assert_eq!(
        write_tables(&read(), false, 2),
        vec![vec![a.clone(), b.clone()], vec![c, d], vec![e.clone()]]
    );
    assert_eq!(write_tables(&read(), true, 2), vec![vec![a, b], vec![e]]);
}

#[test]
fn a_scan_returns_the_values_that_reads_return() {
    let memtable = [("b", 0, "m"), ("d", 0, ""), ("f", 0, "m")];
    let l0 = [("a", 0, "l"), ("b", 0, "l"), ("c", 0, "l"), ("d", 0, "l")];
    let level = [("c", 0, "v"), ("e", 0, "v"), ("g", 0, "v")];
    let lower = ScanBound::Excluded(&b"a"[..]);
    let upper = ScanBound::Excluded(&b"g"[..]);
    let mut first = iterator(&l0);
    skip_excluded(&mut first, &lower).unwrap();
    let merged = TwoMergeIterator::create(iterator(&memtable), first).unwrap();
    let mut merged = TwoMergeIterator::create(merged, iterator(&level)).unwrap();
    let returned: Vec<(String, u64, String)> = drain(&mut merged)
        .into_iter()
        .take_while(|e| is_below_upper(e.0.as_bytes(), &upper))
        .filter(|e| !e.2.is_empty())
        .collect();
    assert_eq!(
        returned,
        vec![entry("b", 0, "m"), entry("c", 0, "l"), entry("e", 0, "v"), entry("f", 0, "m")]
    );
}
