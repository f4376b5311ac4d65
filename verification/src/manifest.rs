//! The manifest: a log of changes to the storage state, each record with its length and a
//! checksum. How a record is written as bytes is the embedding program's.

use vstd::prelude::*;

use crate::checksum::{checksum, crc32};
use crate::codec::{
    be_bytes, be_value, get_u32, get_u64, lemma_be_bytes_len, lemma_be_round_trip, put_slice,
    put_u32, put_u64,
};
use crate::compact::{CompactionTask, CompactionTaskView};

verus! {

/// A change to the storage state.
#[derive(Debug)]
pub enum ManifestRecord {
    Flush(usize),
    NewMemtable(usize),
    Compaction(CompactionTask, Vec<usize>),
}

/// What a `ManifestRecord` stands for.
#[verifier::ext_equal]
pub enum RecordView {
    Flush(usize),
    NewMemtable(usize),
    Compaction(CompactionTaskView, Seq<usize>),
}

impl View for ManifestRecord {
    type V = RecordView;

    open spec fn view(&self) -> RecordView {
        match self {
            ManifestRecord::Flush(id) => RecordView::Flush(*id),
            ManifestRecord::NewMemtable(id) => RecordView::NewMemtable(*id),
            ManifestRecord::Compaction(task, output) => RecordView::Compaction(task@, output@),
        }
    }
}

/// How a record is framed: its length in 64 bits, its bytes, and their checksum.
pub open spec fn framed(record: Seq<u8>) -> Seq<u8> {
    be_bytes(record.len(), 8) + record + be_bytes(crc32(record) as nat, 4)
}

/// The length that the frame at `pos` states.
pub open spec fn record_len(data: Seq<u8>, pos: int) -> int {
    be_value(data.subrange(pos, pos + 8)) as int
}

/// The length and the record of the frame at `pos` are there.
pub open spec fn record_is_there(data: Seq<u8>, pos: int) -> bool {
    pos + 8 <= data.len() && pos + 8 + record_len(data, pos) <= data.len()
}

/// The record of the frame at `pos`.
pub open spec fn record_bytes(data: Seq<u8>, pos: int) -> Seq<u8> {
    data.subrange(pos + 8, pos + 8 + record_len(data, pos))
}

/// The whole frame at `pos` is there.
pub open spec fn frame_is_there(data: Seq<u8>, pos: int) -> bool {
    record_is_there(data, pos) && pos + 8 + record_len(data, pos) + 4 <= data.len()
}

/// The checksum of the frame at `pos` is right.
pub open spec fn frame_is_intact(data: Seq<u8>, pos: int) -> bool {
    let end = pos + 8 + record_len(data, pos);
    be_value(data.subrange(end, end + 4)) == crc32(record_bytes(data, pos))
}

/// The bytes to append to the manifest for a record.
pub fn frame_record(record: &[u8]) -> (frame: Vec<u8>)
    requires
        record@.len() + 12 <= isize::MAX,
    ensures
        frame@ == framed(record@),
{
    let mut frame: Vec<u8> = Vec::new();
    proof {
        lemma_be_bytes_len(record@.len(), 8);
    }
    put_u64(&mut frame, record.len() as u64);
    put_slice(&mut frame, record);
    put_u32(&mut frame, checksum(record));
    assert(frame@ =~= framed(record@));
    frame
}

/// Whether the length and the record of the frame at `pos` are there.
pub fn has_record(data: &[u8], pos: usize) -> (there: bool)
    requires
        pos <= data@.len(),
    ensures
        there == record_is_there(data@, pos as int),
{
    if data.len() - pos < 8 {
        return false;
    }
    let header = vstd::slice::slice_subrange(data, pos, pos + 8);
    assert(header@.take(8) =~= header@);
    let len: u64 = get_u64(header);
    len <= (data.len() - pos - 8) as u64
}

/// The record of the frame at `pos`.
pub fn record_at(data: &[u8], pos: usize) -> (record: &[u8])
    requires
        record_is_there(data@, pos as int),
    ensures
        record@ == record_bytes(data@, pos as int),
{
    assert(data.len() == data@.len());
    let header = vstd::slice::slice_subrange(data, pos, pos + 8);
    assert(header@.take(8) =~= header@);
    let len: usize = get_u64(header) as usize;
    vstd::slice::slice_subrange(data, pos + 8, pos + 8 + len)
}

/// Whether the whole frame at `pos` is there.
pub fn has_frame(data: &[u8], pos: usize) -> (there: bool)
    requires
        pos <= data@.len(),
    ensures
        there == frame_is_there(data@, pos as int),
{
    has_record(data, pos) && data.len() - pos - 8 - record_at(data, pos).len() >= 4
}

/// Whether the checksum of the frame at `pos` is right.
pub fn is_intact(data: &[u8], pos: usize) -> (intact: bool)
    requires
        frame_is_there(data@, pos as int),
    ensures
        intact == frame_is_intact(data@, pos as int),
{
    assert(data.len() == data@.len());
    let record = record_at(data, pos);
    let end: usize = pos + 8 + record.len();
    let stored = vstd::slice::slice_subrange(data, end, end + 4);
    assert(stored@.take(4) =~= stored@);
    get_u32(stored) == checksum(record)
}

/// Where the frame after the one at `pos` begins.
pub fn next_frame(data: &[u8], pos: usize) -> (next: usize)
    requires
        frame_is_there(data@, pos as int),
    ensures
        next == pos + 8 + record_len(data@, pos as int) + 4,
        next <= data@.len(),
{
    assert(data.len() == data@.len());
    pos + 8 + record_at(data, pos).len() + 4
}

/// What comes next in reading a manifest.
#[derive(Debug, Clone, Copy, PartialEq, Eq, Structural)]
pub enum RecoverStep {
    /// There are no more frames.
    Done,
    /// Parse the record of the frame.
    Parse,
    /// Keep the record, and go on with the frame at this position.
    Keep(usize),
    /// The record is not the one that was written.
    Mismatched,
    /// The manifest ends within the frame.
    CutOff,
}

/// What comes next at the frame at `pos`, whose record has been parsed or not: a record is parsed
/// before its checksum is looked at.
pub open spec fn recover_step_of(data: Seq<u8>, pos: int, parsed: bool) -> RecoverStep {
    if pos == data.len() {
        RecoverStep::Done
    } else if !record_is_there(data, pos) {
        RecoverStep::CutOff
    } else if !parsed {
        RecoverStep::Parse
    } else if !frame_is_there(data, pos) {
        RecoverStep::CutOff
    } else if !frame_is_intact(data, pos) {
        RecoverStep::Mismatched
    } else {
        RecoverStep::Keep((pos + 8 + record_len(data, pos) + 4) as usize)
    }
}

/// What comes next at the frame at `pos`, whose record has been parsed or not.
pub fn recover_step(data: &[u8], pos: usize, parsed: bool) -> (step: RecoverStep)
    requires
        pos <= data@.len(),
    ensures
        step == recover_step_of(data@, pos as int, parsed),
        step matches RecoverStep::Keep(next) ==> pos < next <= data@.len(),
        step is Parse ==> record_is_there(data@, pos as int),
{
    if pos == data.len() {
        RecoverStep::Done
    } else if !has_record(data, pos) {
        RecoverStep::CutOff
    } else if !parsed {
        RecoverStep::Parse
    } else if !has_frame(data, pos) {
        RecoverStep::CutOff
    } else if !is_intact(data, pos) {
        RecoverStep::Mismatched
    } else {
        RecoverStep::Keep(next_frame(data, pos))
    }
}

/// How some records are written, one after the other.
pub open spec fn framed_all(records: Seq<Seq<u8>>) -> Seq<u8>
    decreases records.len(),
{
    if records.len() == 0 {
        Seq::empty()
    } else {
        framed_all(records.drop_last()) + framed(records.last())
    }
}

/// Each of the records that were written one after the other is read back where those before it
/// end, and the next one begins where it ends.
pub proof fn lemma_records_read_back(records: Seq<Seq<u8>>, i: int)
    requires
        0 <= i < records.len(),
        records[i].len() <= u64::MAX,
    ensures
        ({
            let data = framed_all(records);
            let pos = framed_all(records.take(i)).len() as int;
            &&& frame_is_there(data, pos)
            &&& record_bytes(data, pos) == records[i]
            &&& frame_is_intact(data, pos)
            &&& pos + 8 + record_len(data, pos) + 4 == framed_all(records.take(i + 1)).len()
            &&& recover_step_of(data, pos, false) is Parse
            &&& recover_step_of(data, pos, true) is Keep
        }),
{
    let head = records.take(i);
    let through = records.take(i + 1);
    assert(through.drop_last() =~= head);
    lemma_framed_all_splits(records, i + 1);
    lemma_record_reads_back(framed_all(head), records[i], framed_all(records.skip(i + 1)));
}

proof fn lemma_framed_all_splits(records: Seq<Seq<u8>>, k: int)
    requires
        0 <= k <= records.len(),
    ensures
        framed_all(records) == framed_all(records.take(k)) + framed_all(records.skip(k)),
    decreases records.len(),
{
    if k == records.len() {
        assert(records.take(k) =~= records);
        assert(records.skip(k) =~= Seq::empty());
        assert(framed_all(records) + Seq::<u8>::empty() =~= framed_all(records));
    } else {
        let front = records.drop_last();
        lemma_framed_all_splits(front, k);
        assert(front.take(k) =~= records.take(k));
        assert(front.skip(k) =~= records.skip(k).drop_last());
        assert(records.skip(k).last() == records.last());
        let (a, b) = (framed_all(records.take(k)), framed_all(front.skip(k)));
        assert(a + b + framed(records.last()) =~= a + (b + framed(records.last())));
    }
}

/// A record that was framed and written is read back, whatever stands before and after it.
pub proof fn lemma_record_reads_back(before: Seq<u8>, record: Seq<u8>, after: Seq<u8>)
    requires
        record.len() <= u64::MAX,
    ensures
        ({
            let data = before + framed(record) + after;
            let pos = before.len() as int;
            &&& frame_is_there(data, pos)
            &&& record_bytes(data, pos) == record
            &&& frame_is_intact(data, pos)
            &&& pos + 8 + record_len(data, pos) + 4 == (before + framed(record)).len()
        }),
{
    let data = before + framed(record) + after;
    let pos = before.len() as int;
    let n = record.len() as int;
    lemma_be_round_trip(record.len(), 8);
    lemma_be_round_trip(crc32(record) as nat, 4);
    assert(data.subrange(pos, pos + 8) =~= be_bytes(record.len(), 8));
    assert(data.subrange(pos + 8, pos + 8 + n) =~= record);
    assert(data.subrange(pos + 8 + n, pos + 8 + n + 4) =~= be_bytes(crc32(record) as nat, 4));
}

/// A record is framed by its length in eight bytes and its checksum in four, with the higher bytes
/// first.
pub proof fn lemma_frame_layout(record: Seq<u8>)
    requires
        record.len() <= u64::MAX,
    ensures
        ({
            let frame = framed(record);
            let n = record.len() as int;
            &&& frame.len() == 8 + n + 4
            &&& be_value(frame.take(8)) == n
            &&& frame.subrange(8, 8 + n) == record
            &&& be_value(frame.skip(8 + n)) == crc32(record)
        }),
{
    let frame = framed(record);
    let n = record.len() as int;
    lemma_be_round_trip(record.len(), 8);
    lemma_be_round_trip(crc32(record) as nat, 4);
    assert(frame.take(8) =~= be_bytes(record.len(), 8));
    assert(frame.subrange(8, 8 + n) =~= record);
    assert(frame.skip(8 + n) =~= be_bytes(crc32(record) as nat, 4));
}

/// Each of the records that were written one after the other is parsed and kept, in their order,
/// and after the last one nothing is left.
pub proof fn lemma_records_are_recovered(records: Seq<Seq<u8>>, i: int)
    requires
        0 <= i <= records.len(),
        i < records.len() ==> records[i].len() <= u64::MAX,
        framed_all(records).len() <= usize::MAX,
    ensures
        ({
            let data = framed_all(records);
            let pos = framed_all(records.take(i)).len() as int;
            if i < records.len() {
                &&& recover_step_of(data, pos, false) == RecoverStep::Parse
                &&& data.subrange(pos + 8, pos + 8 + records[i].len()) == records[i]
                &&& record_bytes(data, pos) == records[i]
                &&& recover_step_of(data, pos, true) == RecoverStep::Keep(
                    framed_all(records.take(i + 1)).len() as usize,
                )
            } else {
                &&& recover_step_of(data, pos, false) == RecoverStep::Done
                &&& recover_step_of(data, pos, true) == RecoverStep::Done
            }
        }),
{
    if i < records.len() {
        lemma_records_read_back(records, i);
        let head = records.take(i);
        let through = records.take(i + 1);
        assert(through.drop_last() =~= head);
        lemma_framed_all_splits(records, i + 1);
        lemma_frame_layout(records[i]);
        let data = framed_all(records);
        let pos = framed_all(head).len() as int;
        assert(data =~= framed_all(head) + framed(records[i]) + framed_all(records.skip(i + 1)));
        assert(data.subrange(pos + 8, pos + 8 + records[i].len()) =~= framed(records[i]).subrange(
            8,
            8 + records[i].len() as int,
        ));
    } else {
        assert(records.take(i) =~= records);
    }
}

/// A manifest that ends within a frame is told as cut off: at once if the record is not all there,
/// and after the record has been parsed if only the checksum is not.
pub proof fn lemma_cut_frame_is_told(before: Seq<u8>, record: Seq<u8>, k: int)
    requires
        record.len() <= u64::MAX,
        0 < k < 8 + record.len() + 4,
    ensures
        ({
            let data = before + framed(record).take(k);
            let pos = before.len() as int;
            &&& recover_step_of(data, pos, true) == RecoverStep::CutOff
            &&& k < 8 + record.len() ==> recover_step_of(data, pos, false) == RecoverStep::CutOff
            &&& k >= 8 + record.len() ==> recover_step_of(data, pos, false) == RecoverStep::Parse
        }),
{
    let data = before + framed(record).take(k);
    let pos = before.len() as int;
    lemma_frame_layout(record);
    if k >= 8 {
        assert(data.subrange(pos, pos + 8) =~= framed(record).take(8));
    }
}

/// A frame whose checksum is not the one of its record is told as mismatched after the record has
/// been parsed, whatever follows it.
pub proof fn lemma_damaged_frame_is_told(
    before: Seq<u8>,
    record: Seq<u8>,
    sum: Seq<u8>,
    after: Seq<u8>,
)
    requires
        record.len() <= u64::MAX,
        sum.len() == 4,
        be_value(sum) != crc32(record),
    ensures
        ({
            let data = before + be_bytes(record.len(), 8) + record + sum + after;
            let pos = before.len() as int;
            &&& recover_step_of(data, pos, false) == RecoverStep::Parse
            &&& recover_step_of(data, pos, true) == RecoverStep::Mismatched
        }),
{
    let data = before + be_bytes(record.len(), 8) + record + sum + after;
    let pos = before.len() as int;
    let n = record.len() as int;
    lemma_be_round_trip(record.len(), 8);
    assert(data.subrange(pos, pos + 8) =~= be_bytes(record.len(), 8));
    assert(data.subrange(pos + 8, pos + 8 + n) =~= record);
    assert(data.subrange(pos + 8 + n, pos + 8 + n + 4) =~= sum);
}


/// What a frame is read from: its length stands in eight bytes at its position, the record behind
/// it, and the checksum of the record in the four bytes behind that.
pub proof fn lemma_frame_parts(data: Seq<u8>, pos: int)
    requires
        0 <= pos <= data.len(),
    ensures
        ({
            let len = be_value(data.subrange(pos, pos + 8)) as int;
            let end = pos + 8 + len;
            &&& record_is_there(data, pos) == (pos + 8 <= data.len() && end <= data.len())
            &&& frame_is_there(data, pos) == (pos + 8 <= data.len() && end + 4 <= data.len())
            &&& record_is_there(data, pos) ==> record_bytes(data, pos) == data.subrange(pos + 8, end)
            &&& frame_is_there(data, pos) ==> frame_is_intact(data, pos) == (be_value(
                data.subrange(end, end + 4),
            ) == crc32(data.subrange(pos + 8, end)))
        }),
{
}

} // verus!
