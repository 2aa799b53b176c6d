//! Segment files: a magic number, then framed PUT / DELETE / COMMIT records.

use crate::wire::le_u32;
use crate::wire::le_u32_bytes;
use crate::wire::lemma_le_u32_round_trip;
use crate::index::Index;
use crate::index::IndexError;
use crate::index::IndexVariant;
use crate::text::decimal_str;
use crate::text::decimal_text;
use crate::text::hex_str;
use crate::text::hex_text;
use crate::wire::starts_with;
use crate::wire::u32_at;
use vstd::prelude::*;
use vstd::slice::slice_subrange;
use vstd::slice::slice_to_vec;
use vstd::string::StringExecFns;

verus! {

/// Length of the magic number that opens a segment or an index file.
pub const MAGIC_LEN: usize = 8;

/// Length of what every record starts with: checksum, size and tag.
pub const RECORD_HEADER_LEN: usize = 9;

/// Length of an object identifier.
pub const KEY_LEN: usize = 32;

/// Length of a PUT record without its payload, and of a DELETE record.
pub const KEYED_RECORD_LEN: usize = 41;

/// Tag of a PUT record.
pub const TAG_PUT: u8 = 0;

/// Tag of a DELETE record.
pub const TAG_DELETE: u8 = 1;

/// Tag of a COMMIT record.
pub const TAG_COMMIT: u8 = 2;

/// The bytes `BORG_SEG`.
pub open spec fn segment_magic() -> Seq<u8> {
    seq![0x42u8, 0x4fu8, 0x52u8, 0x47u8, 0x5fu8, 0x53u8, 0x45u8, 0x47u8]
}

/// The bytes `BORG_SEG`.
pub fn magic() -> (m: [u8; 8])
    ensures
        m@ == segment_magic(),
{
    let m: [u8; 8] = [0x42, 0x4f, 0x52, 0x47, 0x5f, 0x53, 0x45, 0x47];
    assert(m@ =~= segment_magic());
    m
}

/// One entry of a segment log.
#[derive(Debug, PartialEq, Eq)]
pub enum LogEntry {
    /// Stores `data` under `key`.
    Put { key: [u8; 32], data: Vec<u8> },
    /// Removes what is stored under `key`.
    Delete { key: [u8; 32] },
    /// Marks the end of a transaction.
    Commit,
}

/// A log entry as a mathematical value.
pub enum Entry {
    Put { key: Seq<u8>, data: Seq<u8> },
    Delete { key: Seq<u8> },
    Commit,
}

impl View for LogEntry {
    type V = Entry;

    open spec fn view(&self) -> Entry {
        match self {
            LogEntry::Put { key, data } => Entry::Put { key: key@, data: data@ },
            LogEntry::Delete { key } => Entry::Delete { key: key@ },
            LogEntry::Commit => Entry::Commit,
        }
    }
}

impl Clone for LogEntry {
    fn clone(&self) -> (copy: Self)
        ensures
            copy@ == self@,
    {
        match self {
            LogEntry::Put { key, data } => LogEntry::Put {
                key: *key,
                data: slice_to_vec(data.as_slice()),
            },
            LogEntry::Delete { key } => LogEntry::Delete { key: *key },
            LogEntry::Commit => LogEntry::Commit,
        }
    }
}

/// An entry in words: `COMMIT`; `DELETE` and the key in hexadecimal; `PUT`,
/// the key in hexadecimal and the length of the data.
pub open spec fn described(entry: Entry) -> Seq<char> {
    match entry {
        Entry::Put { key, data } => "PUT    "@ + hex_text(key) + " - "@ + decimal_text(data.len())
            + " bytes"@,
        Entry::Delete { key } => "DELETE "@ + hex_text(key),
        Entry::Commit => "COMMIT"@,
    }
}

impl LogEntry {
    /// The entry in words, for a log or a listing.
    pub fn describe(&self) -> (text: String)
        ensures
            text@ == described(self@),
    {
        match self {
            LogEntry::Put { key, data } => {
                let mut text = String::from_str("PUT    ");
                text.append(hex_str(key.as_slice()).as_str());
                text.append(" - ");
                text.append(decimal_str(data.len()).as_str());
                text.append(" bytes");
                text
            },
            LogEntry::Delete { key } => {
                let mut text = String::from_str("DELETE ");
                text.append(hex_str(key.as_slice()).as_str());
                text
            },
            LogEntry::Commit => String::from_str("COMMIT"),
        }
    }
}

/// Why a segment could not be read.
#[derive(Clone, Copy, Debug, PartialEq, Eq, Structural)]
pub enum FramingError {
    /// The file does not start with the segment magic.
    NotASegment,
    /// The file ends inside a record.
    Truncated,
    /// A PUT record whose size field is smaller than a PUT record can be.
    SizeTooSmall,
    /// A record with a tag that is none of PUT, DELETE and COMMIT.
    UnknownTag,
}

/// The record that starts at `pos`, with the position behind it; `None` where
/// the data ends at `pos`.
///
/// The checksum is not looked at. The size field counts the whole record and
/// is read for PUT records only.
pub open spec fn record_at(data: Seq<u8>, pos: int) -> Result<Option<(Entry, int)>, FramingError> {
    let rest = data.len() - pos;
    if rest <= 0 {
        Ok(None)
    } else if rest < RECORD_HEADER_LEN {
        Err(FramingError::Truncated)
    } else {
        let size = le_u32(data.subrange(pos + 4, pos + 8));
        let tag = data[pos + 8];
        let key = data.subrange(pos + 9, pos + 41);
        if tag == TAG_PUT {
            if rest < KEYED_RECORD_LEN {
                Err(FramingError::Truncated)
            } else if size < KEYED_RECORD_LEN {
                Err(FramingError::SizeTooSmall)
            } else if rest < size {
                Err(FramingError::Truncated)
            } else {
                let payload = data.subrange(pos + 41, pos + size);
                Ok(Some((Entry::Put { key, data: payload }, pos + size)))
            }
        } else if tag == TAG_DELETE {
            if rest < KEYED_RECORD_LEN {
                Err(FramingError::Truncated)
            } else {
                Ok(Some((Entry::Delete { key }, pos + 41)))
            }
        } else if tag == TAG_COMMIT {
            Ok(Some((Entry::Commit, pos + 9)))
        } else {
            Err(FramingError::UnknownTag)
        }
    }
}

/// The records from `pos` to the end of the data, in order.
pub open spec fn records_from(data: Seq<u8>, pos: int) -> Result<Seq<Entry>, FramingError>
    decreases data.len() - pos,
{
    match record_at(data, pos) {
        Ok(None) => Ok(Seq::empty()),
        Err(e) => Err(e),
        Ok(Some((entry, next))) => match records_from(data, next) {
            Ok(rest) => Ok(seq![entry] + rest),
            Err(e) => Err(e),
        },
    }
}

/// Whether the file starts with the segment magic.
pub open spec fn has_magic(file: Seq<u8>) -> bool {
    file.len() >= MAGIC_LEN && file.subrange(0, 8) == segment_magic()
}

/// The entries of a whole segment file.
pub open spec fn segment_entries(file: Seq<u8>) -> Result<Seq<Entry>, FramingError> {
    if has_magic(file) {
        records_from(file, 8)
    } else {
        Err(FramingError::NotASegment)
    }
}

/// The views of a vector of entries.
pub open spec fn entries_view(entries: Seq<LogEntry>) -> Seq<Entry> {
    entries.map_values(|e: LogEntry| e@)
}

/// The `KEY_LEN` bytes that start at `at`, as an identifier.
pub fn key_at(data: &[u8], at: usize) -> (key: [u8; 32])
    requires
        at + KEY_LEN <= data@.len(),
    ensures
        key@ == data@.subrange(at as int, at + KEY_LEN),
{
    let len: usize = data.len();
    let mut key: [u8; 32] = [0u8; 32];
    let mut i: usize = 0;
    while i < KEY_LEN
        invariant
            i <= KEY_LEN,
            at + KEY_LEN <= len == data@.len(),
            forall|j: int| 0 <= j < i ==> key@[j] == data@[at + j],
        decreases KEY_LEN - i,
    {
        key[i] = data[at + i];
        i += 1;
    }
    assert(key@ =~= data@.subrange(at as int, at + KEY_LEN));
    key
}

/// A segment file of a repository.
#[derive(Debug, PartialEq, Eq)]
pub struct Segment {
    /// The number that the file is named by.
    pub id: u32,
    /// The number that the directory of the file is named by.
    pub bucket: u32,
    /// Where the file is, from the data directory: the directory's name, a
    /// slash, the file's name.
    pub path: String,
}

/// A segment file as a mathematical value.
pub struct SegmentView {
    pub id: u32,
    pub bucket: u32,
    pub path: Seq<char>,
}

impl View for Segment {
    type V = SegmentView;

    open spec fn view(&self) -> SegmentView {
        SegmentView { id: self.id, bucket: self.bucket, path: self.path@ }
    }
}

impl SegmentView {
    /// Where the segment stands in the replay order: segments are replayed
    /// by ascending number, those of one number by the number of their
    /// directory.
    pub open spec fn rank(self) -> u64 {
        (self.id * 4294967296 + self.bucket) as u64
    }
}

impl Clone for Segment {
    fn clone(&self) -> (copy: Self)
        ensures
            copy == *self,
    {
        Segment { id: self.id, bucket: self.bucket, path: self.path.clone() }
    }
}

impl Segment {
    /// Where the segment stands in the replay order.
    pub fn rank(&self) -> (rank: u64)
        ensures
            rank == self@.rank(),
    {
        let id: u64 = self.id as u64;
        let bucket: u64 = self.bucket as u64;
        id * 4294967296 + bucket
    }

    /// Starts reading a segment whose file holds `data`.
    ///
    /// A file that does not start with the magic `BORG_SEG`, or is shorter
    /// than it, is `NotASegment`.
    pub fn open(data: Vec<u8>) -> (r: Result<OpenSegment, FramingError>)
        ensures
            match r {
                Ok(segment) => {
                    &&& has_magic(data@)
                    &&& segment.bytes() == data@
                    &&& segment.position() == MAGIC_LEN
                    &&& segment.remaining() == segment_entries(data@)
                },
                Err(e) => e == FramingError::NotASegment && !has_magic(data@),
            },
    {
        let m: [u8; 8] = magic();
        if starts_with(data.as_slice(), m.as_slice()) {
            Ok(OpenSegment { data, position: MAGIC_LEN })
        } else {
            Err(FramingError::NotASegment)
        }
    }

    /// All the entries of the segment whose file holds `data`, or the first
    /// error in it.
    pub fn read(data: Vec<u8>) -> (r: Result<Vec<LogEntry>, FramingError>)
        ensures
            match r {
                Ok(entries) => Ok::<Seq<Entry>, FramingError>(entries_view(entries@)),
                Err(e) => Err(e),
            } == segment_entries(data@),
    {
        match Segment::open(data) {
            Ok(reader) => reader.entries(),
            Err(e) => Err(e),
        }
    }

    /// The format that the magic number at the start of `data` names; see
    /// [`Index::variant`].
    pub fn variant(data: &[u8]) -> (r: Result<IndexVariant, IndexError>)
        ensures
            r == crate::index::variant_of(data@),
    {
        Index::variant(data)
    }
}

/// A segment that is being read, one record after the other.
#[derive(Debug)]
pub struct OpenSegment {
    data: Vec<u8>,
    position: usize,
}

impl OpenSegment {
    /// The bytes of the segment file.
    pub closed spec fn bytes(&self) -> Seq<u8> {
        self.data@
    }

    /// Where the next record starts.
    pub closed spec fn position(&self) -> int {
        self.position as int
    }

    #[verifier::type_invariant]
    spec fn within(&self) -> bool {
        self.position <= self.data@.len()
    }

    /// The entries that are still to come.
    pub open spec fn remaining(&self) -> Result<Seq<Entry>, FramingError> {
        records_from(self.bytes(), self.position())
    }

    /// The next entry of the log, `None` at the end of the file.
    ///
    /// An error is final: it moves the reader to the end of the file.
    pub fn next_log_entry(&mut self) -> (r: Result<Option<LogEntry>, FramingError>)
        ensures
            final(self).bytes() == old(self).bytes(),
            match record_at(old(self).bytes(), old(self).position()) {
                Ok(Some((entry, next))) => {
                    &&& r matches Ok(Some(e)) && e@ == entry
                    &&& final(self).position() == next
                },
                Ok(None) => {
                    &&& r == Ok::<Option<LogEntry>, FramingError>(None)
                    &&& final(self).position() == old(self).position()
                },
                Err(error) => {
                    &&& r == Err::<Option<LogEntry>, FramingError>(error)
                    &&& final(self).position() == old(self).bytes().len()
                },
            },
    {
        proof {
            use_type_invariant(&*self);
        }
        let len: usize = self.data.len();
        let pos: usize = self.position;
        let rest: usize = len - pos;
        if rest == 0 {
            return Ok(None);
        }
        if rest < RECORD_HEADER_LEN {
            self.position = len;
            return Err(FramingError::Truncated);
        }
        let size: u32 = u32_at(self.data.as_slice(), pos + 4);
        let tag: u8 = self.data[pos + 8];
        if tag == TAG_PUT {
            if rest < KEYED_RECORD_LEN {
                self.position = len;
                return Err(FramingError::Truncated);
            }
            let key = key_at(self.data.as_slice(), pos + RECORD_HEADER_LEN);
            if size < 41 {
                self.position = len;
                return Err(FramingError::SizeTooSmall);
            }
            let size: usize = size as usize;
            if rest < size {
                self.position = len;
                return Err(FramingError::Truncated);
            }
            let data = slice_to_vec(
                slice_subrange(self.data.as_slice(), pos + KEYED_RECORD_LEN, pos + size),
            );
            self.position = pos + size;
            Ok(Some(LogEntry::Put { key, data }))
        } else if tag == TAG_DELETE {
            if rest < KEYED_RECORD_LEN {
                self.position = len;
                return Err(FramingError::Truncated);
            }
            let key = key_at(self.data.as_slice(), pos + RECORD_HEADER_LEN);
            self.position = pos + KEYED_RECORD_LEN;
            Ok(Some(LogEntry::Delete { key }))
        } else if tag == TAG_COMMIT {
            self.position = pos + RECORD_HEADER_LEN;
            Ok(Some(LogEntry::Commit))
        } else {
            self.position = len;
            Err(FramingError::UnknownTag)
        }
    }

    /// The next item of the log: `None` at the end of the file, else the
    /// entry or the error that [`OpenSegment::next_log_entry`] gives.
    pub fn next(&mut self) -> (r: Option<Result<LogEntry, FramingError>>)
        ensures
            final(self).bytes() == old(self).bytes(),
            match record_at(old(self).bytes(), old(self).position()) {
                Ok(Some((entry, next))) => {
                    &&& r matches Some(Ok(e)) && e@ == entry
                    &&& final(self).position() == next
                },
                Ok(None) => {
                    &&& r.is_none()
                    &&& final(self).position() == old(self).position()
                },
                Err(error) => {
                    &&& r == Some(Err::<LogEntry, FramingError>(error))
                    &&& final(self).position() == old(self).bytes().len()
                },
            },
    {
        match self.next_log_entry() {
            Ok(None) => None,
            Ok(Some(entry)) => Some(Ok(entry)),
            Err(e) => Some(Err(e)),
        }
    }

    /// All the entries that are still to come, or the first error among them.
    pub fn entries(self) -> (r: Result<Vec<LogEntry>, FramingError>)
        ensures
            match r {
                Ok(entries) => Ok::<Seq<Entry>, FramingError>(entries_view(entries@)),
                Err(e) => Err(e),
            } == self.remaining(),
    {
        let mut reader = self;
        let mut entries: Vec<LogEntry> = Vec::new();
        assert(entries_view(entries@) + Seq::<Entry>::empty() =~= Seq::<Entry>::empty());
        loop
            invariant
                after(entries_view(entries@), reader.remaining()) == self.remaining(),
            decreases reader.bytes().len() - reader.position(),
        {
            proof {
                use_type_invariant(&reader);
            }
            let ghost done = entries_view(entries@);
            match reader.next_log_entry() {
                Ok(None) => {
                    assert(done + Seq::<Entry>::empty() =~= done);
                    return Ok(entries);
                },
                Ok(Some(entry)) => {
                    entries.push(entry);
                    proof {
                        let rest = reader.remaining();
                        assert(entries_view(entries@) =~= done + seq![entry@]);
                        if let Ok(tail) = rest {
                            assert((done + seq![entry@]) + tail =~= done + (seq![entry@] + tail));
                        }
                    }
                },
                Err(e) => {
                    return Err(e);
                },
            }
        }
    }
}

/// The entries `done`, then what `rest` holds.
pub open spec fn after(done: Seq<Entry>, rest: Result<Seq<Entry>, FramingError>) -> Result<
    Seq<Entry>,
    FramingError,
> {
    match rest {
        Ok(entries) => Ok(done + entries),
        Err(e) => Err(e),
    }
}

/// A record as it is written: four checksum bytes, and the entry.
pub struct Record {
    pub crc: Seq<u8>,
    pub entry: Entry,
}

impl Record {
    /// Whether the record can be written: the checksum has four bytes, the
    /// key thirty-two, and the length of a PUT record fits its size field.
    pub open spec fn valid(self) -> bool {
        &&& self.crc.len() == 4
        &&& match self.entry {
            Entry::Put { key, data } => key.len() == KEY_LEN && KEYED_RECORD_LEN + data.len()
                <= u32::MAX,
            Entry::Delete { key } => key.len() == KEY_LEN,
            Entry::Commit => true,
        }
    }

    /// The bytes of the record.
    pub open spec fn bytes(self) -> Seq<u8> {
        match self.entry {
            Entry::Put { key, data } => self.crc + le_u32_bytes(KEYED_RECORD_LEN + data.len())
                + seq![TAG_PUT] + key + data,
            Entry::Delete { key } => self.crc + le_u32_bytes(KEYED_RECORD_LEN as int)
                + seq![TAG_DELETE] + key,
            Entry::Commit => self.crc + le_u32_bytes(RECORD_HEADER_LEN as int)
                + seq![TAG_COMMIT],
        }
    }
}

/// The bytes of the records, one after the other.
pub open spec fn records_bytes(records: Seq<Record>) -> Seq<u8>
    decreases records.len(),
{
    if records.len() == 0 {
        Seq::empty()
    } else {
        records[0].bytes() + records_bytes(records.skip(1))
    }
}

/// The entries of the records.
pub open spec fn records_entries(records: Seq<Record>) -> Seq<Entry> {
    records.map_values(|r: Record| r.entry)
}

/// A valid record that stands at `pos` is read back as its entry, and the
/// next record starts right behind it.
pub proof fn lemma_record_reads_back(before: Seq<u8>, record: Record, behind: Seq<u8>)
    requires
        record.valid(),
    ensures
        record_at(before + record.bytes() + behind, before.len() as int) == Ok::<
            Option<(Entry, int)>,
            FramingError,
        >(Some((record.entry, (before.len() + record.bytes().len()) as int))),
        record.bytes().len() >= RECORD_HEADER_LEN,
{
    let data = before + record.bytes() + behind;
    let pos = before.len() as int;
    let size = match record.entry {
        Entry::Put { key, data } => KEYED_RECORD_LEN + data.len(),
        Entry::Delete { key } => KEYED_RECORD_LEN as int,
        Entry::Commit => RECORD_HEADER_LEN as int,
    };
    lemma_le_u32_round_trip(size);
    assert(data.subrange(pos + 4, pos + 8) =~= le_u32_bytes(size));
    match record.entry {
        Entry::Put { key, data: payload } => {
            assert(data[pos + 8] == TAG_PUT);
            assert(data.subrange(pos + 9, pos + 41) =~= key);
            assert(data.subrange(pos + 41, pos + size) =~= payload);
        },
        Entry::Delete { key } => {
            assert(data[pos + 8] == TAG_DELETE);
            assert(data.subrange(pos + 9, pos + 41) =~= key);
        },
        Entry::Commit => {
            assert(data[pos + 8] == TAG_COMMIT);
        },
    }
}

/// Valid records that stand one after the other behind `before`, up to the
/// end of the data, are read back as their entries, in order.
pub proof fn lemma_records_read_back(before: Seq<u8>, records: Seq<Record>)
    requires
        forall|i: int| 0 <= i < records.len() ==> (#[trigger] records[i]).valid(),
    ensures
        records_from(before + records_bytes(records), before.len() as int) == Ok::<
            Seq<Entry>,
            FramingError,
        >(records_entries(records)),
    decreases records.len(),
{
    if records.len() == 0 {
        assert(records_entries(records) =~= Seq::<Entry>::empty());
        assert(before + records_bytes(records) =~= before);
    } else {
        let first = records[0];
        let others = records.skip(1);
        let data = before + records_bytes(records);
        lemma_record_reads_back(before, first, records_bytes(others));
        assert(data =~= before + first.bytes() + records_bytes(others));
        assert forall|i: int| 0 <= i < others.len() implies (#[trigger] others[i]).valid() by {
            assert(others[i] == records[i + 1]);
        }
        lemma_records_read_back(before + first.bytes(), others);
        assert(records_entries(records) =~= seq![first.entry] + records_entries(others));
    }
}

/// A segment made of the magic number and valid records decodes to exactly
/// the entries of those records, in order.
pub proof fn lemma_segment_round_trip(records: Seq<Record>)
    requires
        forall|i: int| 0 <= i < records.len() ==> (#[trigger] records[i]).valid(),
    ensures
        segment_entries(segment_magic() + records_bytes(records)) == Ok::<
            Seq<Entry>,
            FramingError,
        >(records_entries(records)),
{
    let file = segment_magic() + records_bytes(records);
    assert(file.subrange(0, 8) =~= segment_magic());
    lemma_records_read_back(segment_magic(), records);
}

} // verus!
