//! The write-ahead log: batches of entries, each with its length and a checksum.

use vstd::prelude::*;

use crate::checksum::{checksum, crc32};
use crate::codec::{
    be_bytes, be_value, bytes_copy_from_slice, get_u16, get_u32, get_u64, lemma_be_bytes_len,
    lemma_be_round_trip, put_slice, put_u16, put_u32, put_u64,
};
use crate::iterators::EntryView;
use crate::key::{KeySlice, KeyView};
use crate::skiplist::{list_entries, list_insert, EntryList};

verus! {

/// The value under each byte string and timestamp.
pub type EntryMap = Map<(Seq<u8>, u64), Seq<u8>>;

/// Why a log could not be read.
#[derive(Debug, Clone, Copy, PartialEq, Eq, Structural)]
pub enum WalError {
    /// The log ends before the batch does.
    Incomplete,
    /// The batch is not the one that was written.
    ChecksumMismatch,
}

/// What the arguments of a batch stand for.
pub open spec fn batch_view(data: Seq<(KeySlice<'_>, &[u8])>) -> Seq<EntryView> {
    data.map_values(|entry: (KeySlice<'_>, &[u8])| (entry.0@, entry.1@))
}

/// How an entry is laid out: the lengths in 16 bits, the timestamp in 64.
pub open spec fn entry_bytes(entry: EntryView) -> Seq<u8> {
    be_bytes(entry.0.key.len() % 0x1_0000, 2) + entry.0.key + be_bytes(entry.0.ts as nat, 8)
        + be_bytes(entry.1.len() % 0x1_0000, 2) + entry.1
}

/// How entries are laid out, one after the other.
pub open spec fn entries_bytes(entries: Seq<EntryView>) -> Seq<u8>
    decreases entries.len(),
{
    if entries.len() == 0 {
        Seq::empty()
    } else {
        entries_bytes(entries.drop_last()) + entry_bytes(entries.last())
    }
}

/// How a batch is laid out: the length of its entries in 32 bits, the entries, and their checksum.
pub open spec fn batch_bytes(entries: Seq<EntryView>) -> Seq<u8> {
    let body = entries_bytes(entries);
    be_bytes(body.len() % 0x1_0000_0000, 4) + body + be_bytes(crc32(body) as nat, 4)
}

/// The length of the layout of entries.
pub open spec fn entries_len(entries: Seq<EntryView>) -> nat
    decreases entries.len(),
{
    if entries.len() == 0 {
        0
    } else {
        entries_len(entries.drop_last()) + 12 + entries.last().0.key.len()
            + entries.last().1.len()
    }
}

proof fn lemma_entry_bytes_len(entry: EntryView)
    ensures
        entry_bytes(entry).len() == 12 + entry.0.key.len() + entry.1.len(),
{
    lemma_be_bytes_len(entry.0.key.len() % 0x1_0000, 2);
    lemma_be_bytes_len(entry.0.ts as nat, 8);
    lemma_be_bytes_len(entry.1.len() % 0x1_0000, 2);
}

proof fn lemma_entries_bytes_len(entries: Seq<EntryView>)
    ensures
        entries_bytes(entries).len() == entries_len(entries),
    decreases entries.len(),
{
    if entries.len() > 0 {
        lemma_entries_bytes_len(entries.drop_last());
        lemma_entry_bytes_len(entries.last());
    }
}

proof fn lemma_entries_len_grows(entries: Seq<EntryView>, k: int)
    requires
        0 <= k <= entries.len(),
    ensures
        entries_len(entries.take(k)) <= entries_len(entries),
    decreases entries.len(),
{
    if k < entries.len() {
        lemma_entries_len_grows(entries.drop_last(), k);
        assert(entries.drop_last().take(k) =~= entries.take(k));
    } else {
        assert(entries.take(k) =~= entries);
    }
}

/// The bytes to append to the log for a batch of entries.
pub fn encode_batch(data: &[(KeySlice<'_>, &[u8])]) -> (bytes: Vec<u8>)
    requires
        entries_len(batch_view(data@)) + 8 <= isize::MAX,
    ensures
        bytes@ == batch_bytes(batch_view(data@)),
{
    let ghost entries = batch_view(data@);
    // key_len(2) + key(key_len) + ts(8) + value_len(2) + value(value_len)
    let mut batch_size: usize = 0;
    let mut i: usize = 0;
    while i < data.len()
        invariant
            entries == batch_view(data@),
            i <= data@.len(),
            entries_len(entries) + 8 <= isize::MAX,
            batch_size == entries_len(entries.take(i as int)),
        decreases data@.len() - i,
    {
        proof {
            lemma_entries_len_grows(entries, i + 1);
            assert(entries.take(i + 1).drop_last() =~= entries.take(i as int));
            assert(entries.take(i + 1).last() == entries[i as int]);
        }
        batch_size = batch_size + 12 + data[i].0.key_len() + data[i].1.len();
        i += 1;
    }
    assert(entries.take(i as int) =~= entries);

    // batch_size(4) + checksum(4)
    let mut buf: Vec<u8> = Vec::with_capacity(batch_size + 8);
    put_u32(&mut buf, (batch_size as u64 % 0x1_0000_0000) as u32);
    let ghost head = be_bytes(entries_len(entries) % 0x1_0000_0000, 4);
    proof {
        lemma_be_bytes_len(entries_len(entries) % 0x1_0000_0000, 4);
        assert(buf@ =~= head + entries_bytes(entries.take(0)));
    }
    let mut i: usize = 0;
    while i < data.len()
        invariant
            entries == batch_view(data@),
            i <= data@.len(),
            entries_len(entries) + 8 <= isize::MAX,
            head.len() == 4,
            buf@ == head + entries_bytes(entries.take(i as int)),
        decreases data@.len() - i,
    {
        let key = data[i].0;
        let value = data[i].1;
        let ghost before = buf@;
        proof {
            lemma_entries_len_grows(entries, i + 1);
            lemma_entries_bytes_len(entries.take(i as int));
            assert(entries.take(i + 1).drop_last() =~= entries.take(i as int));
            assert(entries.take(i + 1).last() == entries[i as int]);
            lemma_be_bytes_len(key@.key.len() % 0x1_0000, 2);
            lemma_be_bytes_len(key@.ts as nat, 8);
            lemma_be_bytes_len(value@.len() % 0x1_0000, 2);
        }
        put_u16(&mut buf, (key.key_len() % 0x1_0000) as u16);
        put_slice(&mut buf, key.key_ref());
        put_u64(&mut buf, key.ts());
        put_u16(&mut buf, (value.len() % 0x1_0000) as u16);
        put_slice(&mut buf, value);
        proof {
            assert(buf@ =~= before + entry_bytes(entries[i as int]));
            assert(buf@ =~= head + entries_bytes(entries.take(i + 1)));
        }
        i += 1;
    }
    proof {
        assert(entries.take(i as int) =~= entries);
        lemma_entries_bytes_len(entries);
        assert(buf@.subrange(4, buf@.len() as int) =~= entries_bytes(entries));
    }
    // the checksum does not cover the batch size
    let sum = checksum(vstd::slice::slice_subrange(buf.as_slice(), 4, buf.len()));
    put_u32(&mut buf, sum);
    assert(buf@ =~= batch_bytes(entries));
    buf
}

/// The bytes to append to the log for one entry.
pub fn encode_entry(key: KeySlice<'_>, value: &[u8]) -> (bytes: Vec<u8>)
    requires
        12 + key@.key.len() + value@.len() + 8 <= isize::MAX,
    ensures
        bytes@ == batch_bytes(seq![(key@, value@)]),
{
    let data = [(key, value)];
    proof {
        let entries = batch_view(data@);
        assert(entries =~= seq![(key@, value@)]);
        assert(entries.drop_last() =~= Seq::empty());
        assert(entries_len(entries.drop_last()) == 0);
    }
    encode_batch(&data)
}

/// The entry that a batch begins with and the length of its layout, unless it runs over the end.
pub open spec fn first_entry(body: Seq<u8>) -> Option<(EntryView, int)> {
    let key_end = 2 + be_value(body.take(2)) as int;
    let value_start = key_end + 10;
    let end = value_start + be_value(body.subrange(key_end + 8, value_start)) as int;
    if body.len() < 2 || body.len() < value_start || body.len() < end {
        None
    } else {
        let ts = be_value(body.subrange(key_end, key_end + 8)) as u64;
        Some(
            ((KeyView { key: body.subrange(2, key_end), ts }, body.subrange(value_start, end)), end),
        )
    }
}

/// The entries of a batch, unless one runs over its end.
pub open spec fn batch_entries(body: Seq<u8>) -> Option<Seq<EntryView>>
    decreases body.len(),
{
    if body.len() == 0 {
        Some(Seq::empty())
    } else {
        match first_entry(body) {
            None => None,
            Some((entry, len)) => match batch_entries(body.skip(len)) {
                None => None,
                Some(rest) => Some(seq![entry] + rest),
            },
        }
    }
}

/// The entries put in one after the other.
pub open spec fn insert_all(map: EntryMap, entries: Seq<EntryView>) -> EntryMap
    decreases entries.len(),
{
    if entries.len() == 0 {
        map
    } else {
        let (key, value) = entries.last();
        insert_all(map, entries.drop_last()).insert((key.key, key.ts), value)
    }
}

/// The length that the batch at the start of the log states for its entries.
pub open spec fn stated_len(log: Seq<u8>) -> int {
    be_value(log.take(4)) as int
}

/// The entries of the batch at the start of the log, as they are laid out.
pub open spec fn first_body(log: Seq<u8>) -> Seq<u8> {
    log.subrange(4, 4 + stated_len(log))
}

/// The batch at the start of the log is all there.
pub open spec fn first_is_complete(log: Seq<u8>) -> bool {
    log.len() >= 4 + stated_len(log) + 4
}

/// The checksum of the batch at the start of the log is right.
pub open spec fn first_is_intact(log: Seq<u8>) -> bool {
    let end = 4 + stated_len(log);
    be_value(log.subrange(end, end + 4)) == crc32(first_body(log))
}

/// What follows the batch at the start of the log.
pub open spec fn after_first(log: Seq<u8>) -> Seq<u8> {
    log.skip(4 + stated_len(log) + 4)
}

/// The log can be read up to its end or its first error: nowhere before that is a length cut off
/// or does an entry run over the end of its batch.
pub open spec fn is_readable(log: Seq<u8>) -> bool
    decreases log.len(),
{
    if log.len() == 0 {
        true
    } else if log.len() < 4 {
        false
    } else if !first_is_complete(log) {
        true
    } else {
        &&& batch_entries(first_body(log)) is Some
        &&& first_is_intact(log) ==> is_readable(after_first(log))
    }
}

/// The entries after a log was read into them, and whether it was read to its end. The entries
/// of a batch are put in before its checksum is looked at.
pub open spec fn replayed(log: Seq<u8>, map: EntryMap) -> (EntryMap, Result<(), WalError>)
    decreases log.len(),
{
    if log.len() == 0 {
        (map, Ok(()))
    } else if log.len() < 4 || !first_is_complete(log) {
        (map, Err(WalError::Incomplete))
    } else {
        let after = insert_all(map, batch_entries(first_body(log))->Some_0);
        if first_is_intact(log) {
            replayed(after_first(log), after)
        } else {
            (after, Err(WalError::ChecksumMismatch))
        }
    }
}

/// The entry that a batch begins with, if it does not run over the end: its byte string, its
/// timestamp, its value and the length of its layout.
fn read_entry(body: &[u8]) -> (entry: Option<(&[u8], u64, &[u8], usize)>)
    ensures
        match entry {
            Some((key, ts, value, len)) => first_entry(body@) == Some(
                ((KeyView { key: key@, ts }, value@), len as int),
            ),
            None => first_entry(body@) is None,
        },
{
    if body.len() < 2 {
        return None;
    }
    let key_end: usize = 2 + get_u16(body) as usize;
    if body.len() < key_end || body.len() - key_end < 10 {
        return None;
    }
    let ts = get_u64(vstd::slice::slice_subrange(body, key_end, key_end + 8));
    let value_start: usize = key_end + 10;
    proof {
        let times = body@.subrange(key_end as int, key_end + 8);
        assert(times.take(8) =~= times);
        let len = body@.subrange(key_end + 8, value_start as int);
        assert(len.take(2) =~= len);
    }
    let value_len = get_u16(vstd::slice::slice_subrange(body, key_end + 8, value_start)) as usize;
    if body.len() - value_start < value_len {
        return None;
    }
    let end: usize = value_start + value_len;
    Some(
        (
            vstd::slice::slice_subrange(body, 2, key_end),
            ts,
            vstd::slice::slice_subrange(body, value_start, end),
            end,
        ),
    )
}

/// Whether no entry of a batch runs over its end.
fn is_batch_readable(body: &[u8]) -> (readable: bool)
    ensures
        readable == (batch_entries(body@) is Some),
{
    let mut pos: usize = 0;
    assert(body@.skip(0) =~= body@);
    while pos < body.len()
        invariant
            pos <= body@.len(),
            (batch_entries(body@) is Some) == (batch_entries(body@.skip(pos as int)) is Some),
        decreases body@.len() - pos,
    {
        let rest = vstd::slice::slice_subrange(body, pos, body.len());
        assert(rest@ =~= body@.skip(pos as int));
        match read_entry(rest) {
            None => {
                return false;
            },
            Some((_, _, _, len)) => {
                assert(rest@.skip(len as int) =~= body@.skip(pos + len));
                pos = pos + len;
            },
        }
    }
    true
}

/// Whether the log can be read up to its end or its first error.
pub fn check_readable(log: &[u8]) -> (readable: bool)
    ensures
        readable == is_readable(log@),
{
    let mut pos: usize = 0;
    assert(log@.skip(0) =~= log@);
    while pos < log.len()
        invariant
            pos <= log@.len(),
            is_readable(log@) == is_readable(log@.skip(pos as int)),
        decreases log@.len() - pos,
    {
        let rest = vstd::slice::slice_subrange(log, pos, log.len());
        assert(rest@ =~= log@.skip(pos as int));
        if rest.len() < 4 {
            return false;
        }
        let batch_size = get_u32(rest) as usize;
        if rest.len() - 4 < batch_size || rest.len() - 4 - batch_size < 4 {
            return true;
        }
        let end: usize = 4 + batch_size;
        let body = vstd::slice::slice_subrange(rest, 4, end);
        if !is_batch_readable(body) {
            return false;
        }
        let stored = vstd::slice::slice_subrange(rest, end, end + 4);
        assert(stored@.take(4) =~= stored@);
        if get_u32(stored) != checksum(body) {
            return true;
        }
        assert(rest@.skip(end + 4) =~= log@.skip(pos + end + 4));
        pos = pos + end + 4;
    }
    true
}

proof fn lemma_insert_all_push(map: EntryMap, entries: Seq<EntryView>, entry: EntryView)
    ensures
        insert_all(map, entries.push(entry)) == insert_all(map, entries).insert(
            (entry.0.key, entry.0.ts),
            entry.1,
        ),
{
    assert(entries.push(entry).drop_last() =~= entries);
}

/// Puts the entries of a batch into the list.
fn replay_batch(body: &[u8], list: &mut EntryList)
    requires
        batch_entries(body@) is Some,
    ensures
        list_entries(*final(list)) == insert_all(
            list_entries(*old(list)),
            batch_entries(body@)->Some_0,
        ),
{
    let ghost entries = batch_entries(body@)->Some_0;
    let ghost mut done: Seq<EntryView> = Seq::empty();
    let mut pos: usize = 0;
    proof {
        assert(body@.skip(0) =~= body@);
        assert(done + entries =~= entries);
    }
    while pos < body.len()
        invariant
            pos <= body@.len(),
            batch_entries(body@.skip(pos as int)) is Some,
            entries == done + batch_entries(body@.skip(pos as int))->Some_0,
            list_entries(*list) == insert_all(list_entries(*old(list)), done),
        decreases body@.len() - pos,
    {
        let rest = vstd::slice::slice_subrange(body, pos, body.len());
        assert(rest@ =~= body@.skip(pos as int));
        if let Some((key, ts, value, len)) = read_entry(rest) {
            let ghost entry = (KeyView { key: key@, ts }, value@);
            list_insert(list, bytes_copy_from_slice(key), ts, bytes_copy_from_slice(value));
            proof {
                lemma_insert_all_push(list_entries(*old(list)), done, entry);
                assert(rest@.skip(len as int) =~= body@.skip(pos + len));
                let remaining = batch_entries(body@.skip(pos + len))->Some_0;
                assert(done + (seq![entry] + remaining) =~= done.push(entry) + remaining);
                done = done.push(entry);
            }
            pos = pos + len;
        }
    }
    assert(done + Seq::<EntryView>::empty() =~= done);
}

/// Reads a log into the list.
pub fn replay(log: &[u8], list: &mut EntryList) -> (result: Result<(), WalError>)
    requires
        is_readable(log@),
    ensures
        (list_entries(*final(list)), result) == replayed(log@, list_entries(*old(list))),
{
    let mut pos: usize = 0;
    assert(log@.skip(0) =~= log@);
    while pos < log.len()
        invariant
            pos <= log@.len(),
            is_readable(log@.skip(pos as int)),
            replayed(log@, list_entries(*old(list))) == replayed(
                log@.skip(pos as int),
                list_entries(*list),
            ),
        decreases log@.len() - pos,
    {
        let rest = vstd::slice::slice_subrange(log, pos, log.len());
        assert(rest@ =~= log@.skip(pos as int));
        let batch_size = get_u32(rest) as usize;
        if rest.len() - 4 < batch_size || rest.len() - 4 - batch_size < 4 {
            return Err(WalError::Incomplete);
        }
        let end: usize = 4 + batch_size;
        let body = vstd::slice::slice_subrange(rest, 4, end);
        let sum = checksum(body);
        replay_batch(body, list);
        let stored = vstd::slice::slice_subrange(rest, end, end + 4);
        assert(stored@.take(4) =~= stored@);
        if get_u32(stored) != sum {
            return Err(WalError::ChecksumMismatch);
        }
        assert(rest@.skip(end + 4) =~= log@.skip(pos + end + 4));
        pos = pos + end + 4;
    }
    Ok(())
}

/// Reads a log into the list if it can be read, and else leaves the list as it is.
pub fn try_replay(log: &[u8], list: &mut EntryList) -> (result: Option<Result<(), WalError>>)
    ensures
        match result {
            Some(result) => is_readable(log@) && (list_entries(*final(list)), result)
                == replayed(log@, list_entries(*old(list))),
            None => !is_readable(log@) && list_entries(*final(list)) == list_entries(*old(list)),
        },
{
    if check_readable(log) {
        Some(replay(log, list))
    } else {
        None
    }
}

/// The lengths of the entry fit in the 16 bits that they are kept in.
pub open spec fn fits_layout(entry: EntryView) -> bool {
    entry.0.key.len() < 0x1_0000 && entry.1.len() < 0x1_0000
}

proof fn lemma_first_entry_of_layout(entry: EntryView)
    requires
        fits_layout(entry),
    ensures
        first_entry(entry_bytes(entry)) == Some((entry, entry_bytes(entry).len() as int)),
{
    let (key, value) = entry;
    let body = entry_bytes(entry);
    let key_end = 2 + key.key.len() as int;
    lemma_entry_bytes_len(entry);
    lemma_be_round_trip(key.key.len(), 2);
    lemma_be_round_trip(key.ts as nat, 8);
    lemma_be_round_trip(value.len(), 2);
    assert(body.take(2) =~= be_bytes(key.key.len(), 2));
    assert(body.subrange(2, key_end) =~= key.key);
    assert(body.subrange(key_end, key_end + 8) =~= be_bytes(key.ts as nat, 8));
    assert(body.subrange(key_end + 8, key_end + 10) =~= be_bytes(value.len(), 2));
    assert(body.subrange(key_end + 10, body.len() as int) =~= value);
}

proof fn lemma_first_entry_of_prefix(body: Seq<u8>, tail: Seq<u8>)
    requires
        first_entry(body) is Some,
    ensures
        first_entry(body + tail) == first_entry(body),
        0 < first_entry(body)->Some_0.1 <= body.len(),
{
    let all = body + tail;
    let key_end = 2 + be_value(body.take(2)) as int;
    let end = first_entry(body)->Some_0.1;
    assert(all.take(2) =~= body.take(2));
    assert(all.subrange(2, key_end) =~= body.subrange(2, key_end));
    assert(all.subrange(key_end, key_end + 8) =~= body.subrange(key_end, key_end + 8));
    assert(all.subrange(key_end + 8, key_end + 10) =~= body.subrange(key_end + 8, key_end + 10));
    assert(all.subrange(key_end + 10, end) =~= body.subrange(key_end + 10, end));
}

proof fn lemma_batch_entries_append(body: Seq<u8>, entry: EntryView)
    requires
        batch_entries(body) is Some,
        fits_layout(entry),
    ensures
        batch_entries(body + entry_bytes(entry)) == Some(batch_entries(body)->Some_0.push(entry)),
    decreases body.len(),
{
    let tail = entry_bytes(entry);
    let all = body + tail;
    if body.len() == 0 {
        assert(all =~= tail);
        lemma_first_entry_of_layout(entry);
        lemma_entry_bytes_len(entry);
        assert(all.skip(all.len() as int) =~= Seq::empty());
        assert(batch_entries(all.skip(all.len() as int)) == Some(Seq::<EntryView>::empty()));
        assert(seq![entry] + Seq::empty() =~= Seq::empty().push(entry));
    } else {
        lemma_first_entry_of_prefix(body, tail);
        let (first, len) = first_entry(body)->Some_0;
        lemma_batch_entries_append(body.skip(len), entry);
        assert(all.skip(len) =~= body.skip(len) + tail);
        let rest = batch_entries(body.skip(len))->Some_0;
        assert(seq![first] + rest.push(entry) =~= (seq![first] + rest).push(entry));
    }
}

/// The entries of a batch are read back as they were written.
pub proof fn lemma_batch_reads_back(entries: Seq<EntryView>)
    requires
        forall|i: int| 0 <= i < entries.len() ==> fits_layout(#[trigger] entries[i]),
    ensures
        batch_entries(entries_bytes(entries)) == Some(entries),
    decreases entries.len(),
{
    if entries.len() == 0 {
        assert(entries =~= Seq::empty());
    } else {
        let front = entries.drop_last();
        lemma_batch_reads_back(front);
        lemma_batch_entries_append(entries_bytes(front), entries.last());
        assert(front.push(entries.last()) =~= entries);
    }
}

proof fn lemma_first_batch(entries: Seq<EntryView>, tail: Seq<u8>)
    requires
        entries_len(entries) < 0x1_0000_0000,
    ensures
        ({
            let log = batch_bytes(entries) + tail;
            &&& log.len() >= 8
            &&& first_is_complete(log)
            &&& first_body(log) == entries_bytes(entries)
            &&& first_is_intact(log)
            &&& after_first(log) == tail
        }),
{
    let log = batch_bytes(entries) + tail;
    let body = entries_bytes(entries);
    let n = body.len() as int;
    lemma_entries_bytes_len(entries);
    lemma_be_round_trip(body.len(), 4);
    lemma_be_round_trip(crc32(body) as nat, 4);
    assert(log.take(4) =~= be_bytes(body.len(), 4));
    assert(first_body(log) =~= body);
    assert(log.subrange(4 + n, 4 + n + 4) =~= be_bytes(crc32(body) as nat, 4));
    assert(after_first(log) =~= tail);
}

proof fn lemma_first_batch_of_prefix(log: Seq<u8>, tail: Seq<u8>)
    requires
        log.len() >= 4,
        first_is_complete(log),
    ensures
        first_is_complete(log + tail),
        first_body(log + tail) == first_body(log),
        first_is_intact(log + tail) == first_is_intact(log),
        after_first(log + tail) == after_first(log) + tail,
{
    let all = log + tail;
    let end = 4 + stated_len(log);
    assert(all.take(4) =~= log.take(4));
    assert(first_body(all) =~= first_body(log));
    assert(all.subrange(end, end + 4) =~= log.subrange(end, end + 4));
    assert(after_first(all) =~= after_first(log) + tail);
}

proof fn lemma_replayed_step(log: Seq<u8>, map: EntryMap)
    requires
        log.len() >= 4,
        first_is_complete(log),
        first_is_intact(log),
    ensures
        replayed(log, map) == replayed(
            after_first(log),
            insert_all(map, batch_entries(first_body(log))->Some_0),
        ),
        is_readable(log) == (batch_entries(first_body(log)) is Some && is_readable(
            after_first(log),
        )),
{
}

proof fn lemma_replay_reaches_end(log: Seq<u8>, map: EntryMap)
    requires
        log.len() > 0,
        is_readable(log),
        replayed(log, map).1 is Ok,
    ensures
        log.len() >= 4,
        first_is_complete(log),
        first_is_intact(log),
        after_first(log).len() < log.len(),
{
}

proof fn lemma_replay_of_one_batch(entries: Seq<EntryView>, map: EntryMap)
    requires
        entries_len(entries) < 0x1_0000_0000,
        forall|i: int| 0 <= i < entries.len() ==> fits_layout(#[trigger] entries[i]),
    ensures
        is_readable(batch_bytes(entries)),
        replayed(batch_bytes(entries), map) == (insert_all(map, entries), Ok::<(), WalError>(())),
{
    lemma_first_batch(entries, Seq::empty());
    lemma_batch_reads_back(entries);
    assert(batch_bytes(entries) + Seq::empty() =~= batch_bytes(entries));
    lemma_replayed_step(batch_bytes(entries), map);
}

/// Reading a log gives back what was written: where a log can be read to its end, then so it can
/// with another batch appended, and the entries of the batch come last.
pub proof fn lemma_replay_of_appended_batch(log: Seq<u8>, entries: Seq<EntryView>, map: EntryMap)
    requires
        is_readable(log),
        replayed(log, map).1 is Ok,
        entries_len(entries) < 0x1_0000_0000,
        forall|i: int| 0 <= i < entries.len() ==> fits_layout(#[trigger] entries[i]),
    ensures
        is_readable(log + batch_bytes(entries)),
        replayed(log + batch_bytes(entries), map) == (
            insert_all(replayed(log, map).0, entries),
            Ok::<(), WalError>(()),
        ),
    decreases log.len(),
{
    let all = log + batch_bytes(entries);
    if log.len() == 0 {
        lemma_replay_of_one_batch(entries, map);
        assert(batch_bytes(entries) =~= all);
    } else {
        let after = insert_all(map, batch_entries(first_body(log))->Some_0);
        lemma_replay_reaches_end(log, map);
        lemma_first_batch_of_prefix(log, batch_bytes(entries));
        lemma_replayed_step(log, map);
        lemma_replayed_step(all, map);
        lemma_replay_of_appended_batch(after_first(log), entries, after);
    }
}

proof fn lemma_two_bytes(n: nat)
    ensures
        be_bytes(n % 0x1_0000, 2).len() == 2,
        be_bytes(n % 0x1_0000, 2)[0] == n / 0x100 % 0x100,
        be_bytes(n % 0x1_0000, 2)[1] == n % 0x100,
{
    reveal_with_fuel(be_bytes, 3);
}

/// Each entry is laid out as the length of its key in two bytes, its key, its timestamp in eight,
/// the length of its value in two, and its value, with the higher bytes first.
pub proof fn lemma_entry_layout(entry: EntryView)
    ensures
        ({
            let bytes = entry_bytes(entry);
            let (key, ts, value) = (entry.0.key, entry.0.ts, entry.1);
            let end = 2 + key.len() as int;
            &&& bytes.len() == 12 + key.len() + value.len()
            &&& bytes[0] == key.len() / 0x100 % 0x100
            &&& bytes[1] == key.len() % 0x100
            &&& bytes.subrange(2, end) == key
            &&& be_value(bytes.subrange(end, end + 8)) == ts
            &&& bytes[end + 8] == value.len() / 0x100 % 0x100
            &&& bytes[end + 9] == value.len() % 0x100
            &&& bytes.skip(end + 10) == value
        }),
{
    let bytes = entry_bytes(entry);
    let (key, value) = (entry.0.key, entry.1);
    let end = 2 + key.len() as int;
    lemma_entry_bytes_len(entry);
    lemma_two_bytes(key.len());
    lemma_two_bytes(value.len());
    lemma_be_round_trip(entry.0.ts as nat, 8);
    lemma_be_bytes_len(entry.0.ts as nat, 8);
    assert(bytes[0] == be_bytes(key.len() % 0x1_0000, 2)[0]);
    assert(bytes[1] == be_bytes(key.len() % 0x1_0000, 2)[1]);
    assert(bytes.subrange(2, end) =~= key);
    assert(bytes.subrange(end, end + 8) =~= be_bytes(entry.0.ts as nat, 8));
    assert(bytes[end + 8] == be_bytes(value.len() % 0x1_0000, 2)[0]);
    assert(bytes[end + 9] == be_bytes(value.len() % 0x1_0000, 2)[1]);
    assert(bytes.skip(end + 10) =~= value);
}

/// A batch is laid out as the length of its entries in four bytes, the entries one after the
/// other, and the checksum of the entries alone in four bytes, with the higher bytes first.
pub proof fn lemma_batch_layout(entries: Seq<EntryView>)
    ensures
        ({
            let bytes = batch_bytes(entries);
            let body = entries_bytes(entries);
            let n = body.len() as int;
            &&& bytes.len() == 4 + n + 4
            &&& be_value(bytes.take(4)) == n % 0x1_0000_0000
            &&& bytes.subrange(4, 4 + n) == body
            &&& be_value(bytes.skip(4 + n)) == crc32(body)
            &&& entries.len() == 0 ==> n == 0
            &&& entries.len() > 0 ==> body == entries_bytes(entries.take(entries.len() - 1))
                + entry_bytes(entries[entries.len() - 1])
        }),
{
    let bytes = batch_bytes(entries);
    let body = entries_bytes(entries);
    let n = body.len() as int;
    lemma_be_bytes_len(body.len() % 0x1_0000_0000, 4);
    lemma_be_bytes_len(crc32(body) as nat, 4);
    lemma_be_round_trip(body.len() % 0x1_0000_0000, 4);
    lemma_be_round_trip(crc32(body) as nat, 4);
    assert(bytes.take(4) =~= be_bytes(body.len() % 0x1_0000_0000, 4));
    assert(bytes.subrange(4, 4 + n) =~= body);
    assert(bytes.skip(4 + n) =~= be_bytes(crc32(body) as nat, 4));
    if entries.len() > 0 {
        assert(entries.take(entries.len() - 1) =~= entries.drop_last());
    }
}

/// Of several entries with one byte string and timestamp the last one counts, and what none of them
/// has stays as it was.
pub proof fn lemma_last_entry_counts(map: EntryMap, entries: Seq<EntryView>, key: Seq<u8>, ts: u64)
    ensures
        ({
            let after = insert_all(map, entries);
            &&& forall|i: int|
                0 <= i < entries.len() && (#[trigger] entries[i]).0 == (KeyView { key, ts }) && (
                forall|j: int|
                    i < j < entries.len() ==> (#[trigger] entries[j]).0 != (KeyView { key, ts }))
                    ==> after.contains_key((key, ts)) && after[(key, ts)] == entries[i].1
            &&& (forall|i: int|
                0 <= i < entries.len() ==> (#[trigger] entries[i]).0 != (KeyView { key, ts }))
                ==> after.contains_key((key, ts)) == map.contains_key((key, ts)) && (
            map.contains_key((key, ts)) ==> after[(key, ts)] == map[(key, ts)])
        }),
    decreases entries.len(),
{
    if entries.len() > 0 {
        let front = entries.drop_last();
        let last = entries.last();
        let at = KeyView { key, ts };
        lemma_last_entry_counts(map, front, key, ts);
        assert(entries[entries.len() - 1] == last);
        let after = insert_all(map, entries);
        if last.0 == at {
        } else {
            assert((last.0.key, last.0.ts) != (key, ts));
            assert forall|i: int|
                0 <= i < entries.len() && (#[trigger] entries[i]).0 == at && (forall|j: int|
                    i < j < entries.len() ==> (#[trigger] entries[j]).0
                        != at) implies after.contains_key((key, ts)) && after[(key, ts)]
                == entries[i].1 by {
                assert(front[i] == entries[i]);
                assert forall|j: int| i < j < front.len() implies (#[trigger] front[j]).0 != at by {
                    assert(front[j] == entries[j]);
                }
            }
            if forall|i: int| 0 <= i < entries.len() ==> (#[trigger] entries[i]).0 != at {
                assert forall|i: int| 0 <= i < front.len() implies (#[trigger] front[i]).0
                    != at by {
                    assert(front[i] == entries[i]);
                }
            }
        }
    }
}

/// What stands behind a log that can be read to its end is read into what the log gives.
pub proof fn lemma_log_goes_on(log: Seq<u8>, tail: Seq<u8>, map: EntryMap)
    requires
        is_readable(log),
        replayed(log, map).1 is Ok,
    ensures
        is_readable(log + tail) == is_readable(tail),
        replayed(log + tail, map) == replayed(tail, replayed(log, map).0),
    decreases log.len(),
{
    if log.len() == 0 {
        assert(log + tail =~= tail);
    } else {
        let after = insert_all(map, batch_entries(first_body(log))->Some_0);
        lemma_replay_reaches_end(log, map);
        lemma_first_batch_of_prefix(log, tail);
        lemma_replayed_step(log, map);
        lemma_replayed_step(log + tail, map);
        lemma_log_goes_on(after_first(log), tail, after);
    }
}

proof fn lemma_part_is_incomplete(entries: Seq<EntryView>, k: int)
    requires
        entries_bytes(entries).len() < 0x1_0000_0000,
        4 <= k < 8 + entries_bytes(entries).len(),
    ensures
        batch_bytes(entries).take(k).len() >= 4,
        !first_is_complete(batch_bytes(entries).take(k)),
{
    let bytes = batch_bytes(entries);
    let part = bytes.take(k);
    let n = entries_bytes(entries).len();
    lemma_be_bytes_len(n, 4);
    lemma_be_bytes_len(crc32(entries_bytes(entries)) as nat, 4);
    lemma_be_round_trip(n, 4);
    assert(bytes.len() == 8 + n);
    assert(part.take(4) =~= be_bytes(n, 4));
    assert(stated_len(part) == n);
}

proof fn lemma_incomplete(log: Seq<u8>, map: EntryMap)
    requires
        log.len() >= 4,
        !first_is_complete(log),
    ensures
        is_readable(log),
        replayed(log, map) == (map, Err::<(), WalError>(WalError::Incomplete)),
{
}

/// A batch of which only a part was written, but at least its length, is told as incomplete: the
/// entries of the batches before it are there, and none of its own.
pub proof fn lemma_cut_batch_is_incomplete(
    log: Seq<u8>,
    entries: Seq<EntryView>,
    k: int,
    map: EntryMap,
)
    requires
        is_readable(log),
        replayed(log, map).1 is Ok,
        entries_bytes(entries).len() < 0x1_0000_0000,
        4 <= k < 8 + entries_bytes(entries).len(),
    ensures
        is_readable(log + batch_bytes(entries).take(k)),
        replayed(log + batch_bytes(entries).take(k), map) == (
            replayed(log, map).0,
            Err::<(), WalError>(WalError::Incomplete),
        ),
{
    let part = batch_bytes(entries).take(k);
    lemma_log_goes_on(log, part, map);
    lemma_part_is_incomplete(entries, k);
    lemma_incomplete(part, replayed(log, map).0);
}

/// A batch whose checksum is not the one of its entries is told as mismatched, whatever follows it.
/// Its entries have been put in by then, and nothing of what follows.
pub proof fn lemma_damaged_batch_is_mismatched(
    log: Seq<u8>,
    entries: Seq<EntryView>,
    sum: Seq<u8>,
    rest: Seq<u8>,
    map: EntryMap,
)
    requires
        is_readable(log),
        replayed(log, map).1 is Ok,
        entries_bytes(entries).len() < 0x1_0000_0000,
        forall|i: int|
            0 <= i < entries.len() ==> (#[trigger] entries[i]).0.key.len() < 0x1_0000
                && entries[i].1.len() < 0x1_0000,
        sum.len() == 4,
        be_value(sum) != crc32(entries_bytes(entries)),
    ensures
        ({
            let body = entries_bytes(entries);
            let damaged = log + (be_bytes(body.len(), 4) + body + sum + rest);
            &&& is_readable(damaged)
            &&& replayed(damaged, map) == (
                insert_all(replayed(log, map).0, entries),
                Err::<(), WalError>(WalError::ChecksumMismatch),
            )
        }),
{
    let body = entries_bytes(entries);
    let n = body.len() as int;
    let tail = be_bytes(body.len(), 4) + body + sum + rest;
    assert forall|i: int| 0 <= i < entries.len() implies fits_layout(#[trigger] entries[i]) by {}
    lemma_log_goes_on(log, tail, map);
    lemma_batch_reads_back(entries);
    lemma_be_round_trip(body.len(), 4);
    assert(tail.take(4) =~= be_bytes(body.len(), 4));
    assert(first_body(tail) =~= body);
    assert(tail.subrange(4 + n, 4 + n + 4) =~= sum);
}

/// A log that ends within the length of a batch cannot be read.
pub proof fn lemma_cut_length_is_unreadable(log: Seq<u8>, tail: Seq<u8>, map: EntryMap)
    requires
        is_readable(log),
        replayed(log, map).1 is Ok,
        0 < tail.len() < 4,
    ensures
        !is_readable(log + tail),
{
    lemma_log_goes_on(log, tail, map);
}

proof fn lemma_first_entry_of_part(entry: EntryView, k: int)
    requires
        fits_layout(entry),
        0 < k < entry_bytes(entry).len(),
    ensures
        first_entry(entry_bytes(entry).take(k)) is None,
{
    let (key, value) = entry;
    let bytes = entry_bytes(entry);
    let part = bytes.take(k);
    let key_end = 2 + key.key.len() as int;
    lemma_entry_bytes_len(entry);
    lemma_be_round_trip(key.key.len(), 2);
    lemma_be_round_trip(value.len(), 2);
    lemma_be_bytes_len(key.ts as nat, 8);
    if k >= 2 {
        assert(part.take(2) =~= be_bytes(key.key.len(), 2));
        if k >= key_end + 10 {
            assert(part.subrange(key_end + 8, key_end + 10) =~= be_bytes(value.len(), 2));
        }
    }
}

/// Entries of which the last one runs over the end of its batch cannot be read.
pub proof fn lemma_cut_entry_is_unreadable(entries: Seq<EntryView>, entry: EntryView, k: int)
    requires
        forall|i: int| 0 <= i < entries.len() ==> fits_layout(#[trigger] entries[i]),
        fits_layout(entry),
        0 < k < entry_bytes(entry).len(),
    ensures
        batch_entries(entries_bytes(entries) + entry_bytes(entry).take(k)) is None,
{
    lemma_batch_reads_back(entries);
    lemma_first_entry_of_part(entry, k);
    lemma_unreadable_tail(entries_bytes(entries), entry_bytes(entry).take(k));
}

proof fn lemma_unreadable_tail(body: Seq<u8>, tail: Seq<u8>)
    requires
        batch_entries(body) is Some,
        tail.len() > 0,
        first_entry(tail) is None,
    ensures
        batch_entries(body + tail) is None,
    decreases body.len(),
{
    if body.len() == 0 {
        assert(body + tail =~= tail);
    } else {
        lemma_first_entry_of_prefix(body, tail);
        let len = first_entry(body)->Some_0.1;
        lemma_unreadable_tail(body.skip(len), tail);
        assert((body + tail).skip(len) =~= body.skip(len) + tail);
    }
}

/// A log with a batch whose entries cannot be read cannot be read, whatever its checksum.
pub proof fn lemma_unreadable_batch(
    log: Seq<u8>,
    body: Seq<u8>,
    sum: Seq<u8>,
    rest: Seq<u8>,
    map: EntryMap,
)
    requires
        is_readable(log),
        replayed(log, map).1 is Ok,
        body.len() < 0x1_0000_0000,
        batch_entries(body) is None,
        sum.len() == 4,
    ensures
        !is_readable(log + (be_bytes(body.len(), 4) + body + sum + rest)),
{
    let tail = be_bytes(body.len(), 4) + body + sum + rest;
    lemma_log_goes_on(log, tail, map);
    lemma_be_round_trip(body.len(), 4);
    assert(tail.take(4) =~= be_bytes(body.len(), 4));
    assert(first_body(tail) =~= body);
}

} // verus!
