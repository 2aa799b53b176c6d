//! The object store: what the segment logs, replayed in order, leave behind.

use crate::segment::entries_view;
use crate::segment::segment_entries;
use crate::segment::Entry;
use crate::segment::FramingError;
use crate::segment::LogEntry;
use crate::segment::Segment;
use std::collections::HashMap;
use vstd::prelude::*;
use vstd::std_specs::hash::group_hash_axioms;

verus! {

broadcast use group_hash_axioms;

/// An object store as a mathematical value: identifiers to stored blobs.
pub type Objects = Map<Seq<u8>, Seq<u8>>;

/// The store after one more entry: a PUT stores or overwrites, a DELETE
/// removes what may be there, a COMMIT changes nothing.
pub open spec fn applied(store: Objects, entry: Entry) -> Objects {
    match entry {
        Entry::Put { key, data } => store.insert(key, data),
        Entry::Delete { key } => store.remove(key),
        Entry::Commit => store,
    }
}

/// The store `start` after the entries of `log`, applied in order.
pub open spec fn replayed_onto(start: Objects, log: Seq<Entry>) -> Objects
    decreases log.len(),
{
    if log.len() == 0 {
        start
    } else {
        applied(replayed_onto(start, log.drop_last()), log.last())
    }
}

/// The store that a whole log leaves behind.
pub open spec fn replayed(log: Seq<Entry>) -> Objects {
    replayed_onto(Map::empty(), log)
}

/// The store `start` after one more segment file, or why the file could
/// not be read.
pub open spec fn with_segment(start: Objects, file: Seq<u8>) -> Result<Objects, FramingError> {
    match segment_entries(file) {
        Ok(log) => Ok(replayed_onto(start, log)),
        Err(e) => Err(e),
    }
}

/// The store that the segment files of a repository leave behind, read in
/// the order given; the first file that cannot be read decides.
pub open spec fn with_segments(start: Objects, files: Seq<Seq<u8>>) -> Result<
    Objects,
    FramingError,
>
    decreases files.len(),
{
    if files.len() == 0 {
        Ok(start)
    } else {
        match with_segments(start, files.drop_last()) {
            Ok(store) => with_segment(store, files.last()),
            Err(e) => Err(e),
        }
    }
}

/// Whether the entry stores or removes `key`.
pub open spec fn touches(entry: Entry, key: Seq<u8>) -> bool {
    match entry {
        Entry::Put { key: k, data } => k == key,
        Entry::Delete { key: k } => k == key,
        Entry::Commit => false,
    }
}

/// Whether two identifiers hold the same bytes.
pub fn same_key(a: &[u8; 32], b: &[u8; 32]) -> (same: bool)
    ensures
        same == (a@ == b@),
{
    let mut i: usize = 0;
    while i < 32
        invariant
            i <= 32,
            forall|j: int| 0 <= j < i ==> a@[j] == b@[j],
        decreases 32 - i,
    {
        if a[i] != b[i] {
            return false;
        }
        i += 1;
    }
    assert(a@ =~= b@);
    true
}

/// One stored object.
#[derive(Debug)]
struct Slot {
    key: [u8; 32],
    data: Vec<u8>,
}

/// No identifier stands in two slots.
spec fn distinct(slots: Seq<Slot>) -> bool {
    forall|i: int, j: int| 0 <= i < j < slots.len() ==> slots[i].key@ != slots[j].key@
}

/// Slot `i` holds `key`.
spec fn holds_at(slots: Seq<Slot>, key: Seq<u8>, i: int) -> bool {
    0 <= i < slots.len() && slots[i].key@ == key
}

/// Some slot holds `key`.
spec fn holds(slots: Seq<Slot>, key: Seq<u8>) -> bool {
    exists|i: int| holds_at(slots, key, i)
}

/// A slot that holds `key`.
spec fn slot_of(slots: Seq<Slot>, key: Seq<u8>) -> int {
    choose|i: int| holds_at(slots, key, i)
}

/// What the slots store.
spec fn objects(slots: Seq<Slot>) -> Objects {
    Map::new(|key: Seq<u8>| holds(slots, key), |key: Seq<u8>| slots[slot_of(slots, key)].data@)
}

/// With distinct keys, a slot that holds a key is the slot of that key.
proof fn lemma_slot_found(slots: Seq<Slot>, key: Seq<u8>, i: int)
    requires
        distinct(slots),
        holds_at(slots, key, i),
    ensures
        holds(slots, key),
        slot_of(slots, key) == i,
        objects(slots).contains_key(key),
        objects(slots)[key] == slots[i].data@,
{
    let j = slot_of(slots, key);
    assert(holds_at(slots, key, j));
    if i < j {
        assert(slots[i].key@ != slots[j].key@);
    }
    if j < i {
        assert(slots[j].key@ != slots[i].key@);
    }
}

/// A key that no slot holds is not stored.
proof fn lemma_slot_missing(slots: Seq<Slot>, key: Seq<u8>)
    requires
        forall|i: int| 0 <= i < slots.len() ==> slots[i].key@ != key,
    ensures
        !holds(slots, key),
        !objects(slots).contains_key(key),
{
    if holds(slots, key) {
        let j = slot_of(slots, key);
        assert(holds_at(slots, key, j));
    }
}

/// Where `key` is stored, if it is.
fn find(slots: &Vec<Slot>, key: &[u8; 32]) -> (at: Option<usize>)
    requires
        distinct(slots@),
    ensures
        match at {
            Some(i) => holds_at(slots@, key@, i as int),
            None => forall|i: int| 0 <= i < slots@.len() ==> slots@[i].key@ != key@,
        },
{
    let mut i: usize = 0;
    while i < slots.len()
        invariant
            i <= slots@.len(),
            forall|j: int| 0 <= j < i ==> slots@[j].key@ != key@,
        decreases slots@.len() - i,
    {
        if same_key(&slots[i].key, key) {
            return Some(i);
        }
        i += 1;
    }
    None
}

/// Stores `data` under `key` in the slots.
fn put(slots: &mut Vec<Slot>, key: [u8; 32], data: Vec<u8>)
    requires
        distinct(old(slots)@),
    ensures
        distinct(final(slots)@),
        objects(final(slots)@) == objects(old(slots)@).insert(key@, data@),
{
    let ghost before = slots@;
    let ghost at: int;
    match find(slots, &key) {
        Some(i) => {
            slots[i].data = data;
            proof {
                at = i as int;
            }
        },
        None => {
            slots.push(Slot { key, data });
            proof {
                at = slots@.len() - 1;
            }
        },
    }
    proof {
        let after = slots@;
        assert(holds_at(after, key@, at));
        assert forall|j: int| 0 <= j < after.len() && j != at implies j < before.len()
            && after[j] == before[j] && before[j].key@ != key@ by {
            if at < before.len() {
                assert(holds_at(before, key@, at));
                if j < at {
                    assert(before[j].key@ != before[at].key@);
                } else {
                    assert(before[at].key@ != before[j].key@);
                }
            }
        }
        assert(distinct(after));
        lemma_slot_found(after, key@, at);
        assert forall|k: Seq<u8>| k != key@ implies (holds(after, k) <==> holds(before, k)) && (
        holds(before, k) ==> objects(after)[k] == objects(before)[k]) by {
            if holds(after, k) {
                let j = slot_of(after, k);
                assert(holds_at(after, k, j));
                assert(holds_at(before, k, j));
            }
            if holds(before, k) {
                let j = slot_of(before, k);
                assert(holds_at(before, k, j));
                assert(j != at);
                assert(holds_at(after, k, j));
                lemma_slot_found(after, k, j);
            }
        }
        assert(objects(after) =~= objects(before).insert(key@, data@));
    }
}

/// Removes what the slots store under `key`.
fn delete(slots: &mut Vec<Slot>, key: &[u8; 32])
    requires
        distinct(old(slots)@),
    ensures
        distinct(final(slots)@),
        objects(final(slots)@) == objects(old(slots)@).remove(key@),
{
    let ghost before = slots@;
    match find(slots, key) {
        Some(i) => {
            let _ = slots.swap_remove(i);
            proof {
                let after = slots@;
                let last = before.len() - 1;
                // Slot `j` of `after` is slot `from(j)` of `before`.
                let from = |j: int| if j == i { last } else { j };
                assert forall|j: int| 0 <= j < after.len() implies after[j] == before[from(j)]
                    && from(j) != i && 0 <= from(j) < before.len() by {}
                assert(distinct(after)) by {
                    assert forall|a: int, b: int| 0 <= a < b < after.len() implies after[a].key@
                        != after[b].key@ by {
                        let fa = from(a);
                        let fb = from(b);
                        if fa < fb {
                            assert(before[fa].key@ != before[fb].key@);
                        } else {
                            assert(before[fb].key@ != before[fa].key@);
                        }
                    }
                }
                assert forall|j: int| 0 <= j < after.len() implies after[j].key@ != key@ by {
                    let f = from(j);
                    if f < i {
                        assert(before[f].key@ != before[i as int].key@);
                    } else {
                        assert(before[i as int].key@ != before[f].key@);
                    }
                }
                lemma_slot_missing(after, key@);
                assert forall|k: Seq<u8>| k != key@ implies (holds(after, k) <==> holds(before, k))
                    && (holds(before, k) ==> objects(after)[k] == objects(before)[k]) by {
                    if holds(after, k) {
                        let j = slot_of(after, k);
                        assert(holds_at(after, k, j));
                        assert(holds_at(before, k, from(j)));
                    }
                    if holds(before, k) {
                        let j = slot_of(before, k);
                        assert(holds_at(before, k, j));
                        let to = if j == last { i as int } else { j };
                        assert(holds_at(after, k, to));
                        lemma_slot_found(after, k, to);
                    }
                }
                assert(objects(after) =~= objects(before).remove(key@));
            }
        },
        None => {
            proof {
                lemma_slot_missing(before, key@);
                assert(objects(before) =~= objects(before).remove(key@));
            }
        },
    }
}

/// The number of the bucket that an identifier falls into: its first eight
/// bytes, read as a little-endian number.
spec fn bucket_of(key: Seq<u8>) -> u64 {
    (key[0] as int + 0x100 * (key[1] as int) + 0x1_0000 * (key[2] as int) + 0x100_0000 * (
    key[3] as int) + 0x1_0000_0000 * (key[4] as int) + 0x100_0000_0000 * (key[5] as int)
        + 0x1_0000_0000_0000 * (key[6] as int) + 0x100_0000_0000_0000 * (key[7] as int)) as u64
}

/// The number of the bucket that an identifier falls into.
fn bucket_index(key: &[u8; 32]) -> (bucket: u64)
    ensures
        bucket == bucket_of(key@),
{
    key[0] as u64 + 0x100 * (key[1] as u64) + 0x1_0000 * (key[2] as u64) + 0x100_0000 * (
    key[3] as u64) + 0x1_0000_0000 * (key[4] as u64) + 0x100_0000_0000 * (key[5] as u64)
        + 0x1_0000_0000_0000 * (key[6] as u64) + 0x100_0000_0000_0000 * (key[7] as u64)
}

/// Every slot of the bucket holds an identifier that falls into it.
spec fn sorted_into(slots: Seq<Slot>, bucket: u64) -> bool {
    forall|i: int| 0 <= i < slots.len() ==> bucket_of(#[trigger] slots[i].key@) == bucket
}

/// What the buckets store.
spec fn stored(buckets: Map<u64, Vec<Slot>>) -> Objects {
    Map::new(
        |key: Seq<u8>|
            buckets.contains_key(bucket_of(key)) && holds(buckets[bucket_of(key)]@, key),
        |key: Seq<u8>| objects(buckets[bucket_of(key)]@)[key],
    )
}

/// Whether every bucket holds distinct identifiers that fall into it.
spec fn orderly(buckets: Map<u64, Vec<Slot>>) -> bool {
    forall|bucket: u64| #[trigger]
        buckets.contains_key(bucket) ==> distinct(buckets[bucket]@) && sorted_into(
            buckets[bucket]@,
            bucket,
        )
}

/// A bucket that changed as its objects say keeps identifiers of its own.
proof fn lemma_stays_sorted(before: Seq<Slot>, after: Seq<Slot>, bucket: u64, key: Seq<u8>)
    requires
        sorted_into(before, bucket),
        bucket_of(key) == bucket,
        forall|k: Seq<u8>| objects(after).contains_key(k) ==> k == key || objects(
            before,
        ).contains_key(k),
    ensures
        sorted_into(after, bucket),
{
    assert forall|i: int| 0 <= i < after.len() implies bucket_of(#[trigger] after[i].key@)
        == bucket by {
        let k = after[i].key@;
        assert(holds_at(after, k, i));
        assert(objects(after).contains_key(k));
        if k != key {
            let j = slot_of(before, k);
            assert(holds_at(before, k, j));
        }
    }
}

/// What the buckets store once one bucket has been put back changed.
proof fn lemma_bucket_replaced(
    buckets: Map<u64, Vec<Slot>>,
    bucket: u64,
    before: Seq<Slot>,
    after: Vec<Slot>,
    key: Seq<u8>,
    change: Objects,
)
    requires
        bucket_of(key) == bucket,
        buckets.contains_key(bucket) ==> buckets[bucket]@ == before,
        !buckets.contains_key(bucket) ==> before.len() == 0,
        forall|k: Seq<u8>|
            k != key ==> (change.contains_key(k) <==> stored(buckets).contains_key(k)),
        forall|k: Seq<u8>| k != key && change.contains_key(k) ==> change[k] == stored(buckets)[k],
        forall|k: Seq<u8>|
            bucket_of(k) == bucket ==> (objects(after@).contains_key(k) <==> change.contains_key(
                k,
            )),
        forall|k: Seq<u8>|
            bucket_of(k) == bucket && change.contains_key(k) ==> objects(after@)[k] == change[k],
    ensures
        stored(buckets.insert(bucket, after)) == change,
{
    let replaced = buckets.insert(bucket, after);
    assert forall|k: Seq<u8>| stored(replaced).contains_key(k) <==> change.contains_key(k) by {
        if bucket_of(k) != bucket {
            assert(replaced.contains_key(bucket_of(k)) == buckets.contains_key(bucket_of(k)));
        }
    }
    assert forall|k: Seq<u8>| stored(replaced).contains_key(k) implies stored(replaced)[k]
        == change[k] by {
        if bucket_of(k) != bucket {
            assert(replaced[bucket_of(k)] == buckets[bucket_of(k)]);
        }
    }
    assert(stored(replaced) =~= change);
}

/// The live objects of a repository, by identifier.
#[derive(Debug)]
pub struct ObjectStore {
    buckets: HashMap<u64, Vec<Slot>>,
}

impl View for ObjectStore {
    type V = Objects;

    closed spec fn view(&self) -> Objects {
        stored(self.buckets@)
    }
}

impl ObjectStore {
    #[verifier::type_invariant]
    spec fn well_formed(&self) -> bool {
        orderly(self.buckets@)
    }

    /// A store that holds nothing.
    pub fn new() -> (store: ObjectStore)
        ensures
            store@ == Map::<Seq<u8>, Seq<u8>>::empty(),
    {
        let store = ObjectStore { buckets: HashMap::new() };
        assert(store@ =~= Map::<Seq<u8>, Seq<u8>>::empty());
        store
    }

    /// Moves the buckets out and leaves the store empty.
    fn take_buckets(&mut self) -> (buckets: HashMap<u64, Vec<Slot>>)
        ensures
            buckets == old(self).buckets,
            orderly(buckets@),
    {
        proof {
            use_type_invariant(&*self);
        }
        let mut emptied = ObjectStore { buckets: HashMap::new() };
        core::mem::swap(self, &mut emptied);
        emptied.buckets
    }

    /// The blob stored under `key`, if there is one.
    pub fn get(&self, key: &[u8; 32]) -> (blob: Option<&Vec<u8>>)
        ensures
            match blob {
                Some(data) => self@.contains_key(key@) && self@[key@] == data@,
                None => !self@.contains_key(key@),
            },
    {
        proof {
            use_type_invariant(self);
        }
        let bucket: u64 = bucket_index(key);
        match self.buckets.get(&bucket) {
            None => None,
            Some(slots) => {
                assert(self.buckets@.contains_key(bucket));
                match find(slots, key) {
                    Some(i) => {
                        proof {
                            lemma_slot_found(slots@, key@, i as int);
                        }
                        Some(&slots[i].data)
                    },
                    None => {
                        proof {
                            lemma_slot_missing(slots@, key@);
                        }
                        None
                    },
                }
            },
        }
    }

    /// Whether a blob is stored under `key`.
    pub fn contains(&self, key: &[u8; 32]) -> (found: bool)
        ensures
            found == self@.contains_key(key@),
    {
        self.get(key).is_some()
    }

    /// Stores `data` under `key`, in place of what was stored there.
    pub fn insert(&mut self, key: [u8; 32], data: Vec<u8>)
        ensures
            final(self)@ == old(self)@.insert(key@, data@),
    {
        let ghost goal = self@.insert(key@, data@);
        let mut buckets = self.take_buckets();
        let ghost all = buckets@;
        let bucket: u64 = bucket_index(&key);
        let mut slots: Vec<Slot> = match buckets.remove(&bucket) {
            Some(slots) => slots,
            None => Vec::new(),
        };
        let ghost before = slots@;
        proof {
            if !all.contains_key(bucket) {
                lemma_slot_missing(before, key@);
            }
        }
        put(&mut slots, key, data);
        proof {
            lemma_stays_sorted(before, slots@, bucket, key@);
            assert forall|k: Seq<u8>| bucket_of(k) == bucket && !all.contains_key(
                bucket,
            ) implies !objects(before).contains_key(k) by {
                lemma_slot_missing(before, k);
            }
            lemma_bucket_replaced(all, bucket, before, slots, key@, goal);
            assert(all.remove(bucket).insert(bucket, slots) =~= all.insert(bucket, slots));
        }
        let _ = buckets.insert(bucket, slots);
        self.buckets = buckets;
    }

    /// Removes what is stored under `key`; a key that is not stored is no
    /// error.
    pub fn remove(&mut self, key: &[u8; 32])
        ensures
            final(self)@ == old(self)@.remove(key@),
    {
        let ghost goal = self@.remove(key@);
        let mut buckets = self.take_buckets();
        let ghost all = buckets@;
        let bucket: u64 = bucket_index(key);
        let mut slots: Vec<Slot> = match buckets.remove(&bucket) {
            Some(slots) => slots,
            None => Vec::new(),
        };
        let ghost before = slots@;
        delete(&mut slots, key);
        proof {
            lemma_stays_sorted(before, slots@, bucket, key@);
            assert forall|k: Seq<u8>| bucket_of(k) == bucket && !all.contains_key(
                bucket,
            ) implies !objects(before).contains_key(k) by {
                lemma_slot_missing(before, k);
            }
            lemma_bucket_replaced(all, bucket, before, slots, key@, goal);
            assert(all.remove(bucket).insert(bucket, slots) =~= all.insert(bucket, slots));
        }
        let _ = buckets.insert(bucket, slots);
        self.buckets = buckets;
    }

    /// Applies one log entry: a PUT stores or overwrites, a DELETE removes,
    /// a COMMIT changes nothing.
    pub fn apply(&mut self, entry: LogEntry)
        ensures
            final(self)@ == applied(old(self)@, entry@),
    {
        match entry {
            LogEntry::Put { key, data } => self.insert(key, data),
            LogEntry::Delete { key } => self.remove(&key),
            LogEntry::Commit => {},
        }
    }

    /// Applies the entries of one segment, in order.
    pub fn apply_all(&mut self, entries: Vec<LogEntry>)
        ensures
            final(self)@ == replayed_onto(old(self)@, entries_view(entries@)),
    {
        let mut entries = entries;
        let ghost log = entries_view(entries@);
        let n: usize = entries.len();
        // Entries can only be taken from the end: turn the vector round first.
        let mut turned: Vec<LogEntry> = Vec::new();
        while entries.len() > 0
            invariant
                log.len() == n,
                entries@.len() + turned@.len() == n,
                forall|i: int| 0 <= i < entries@.len() ==> (#[trigger] entries@[i])@ == log[i],
                forall|i: int|
                    0 <= i < turned@.len() ==> (#[trigger] turned@[i])@ == log[n - 1 - i],
            decreases entries@.len(),
        {
            let entry = entries.pop().unwrap();
            turned.push(entry);
        }
        let ghost start = self@;
        let mut done: usize = 0;
        while done < n
            invariant
                done <= n == log.len(),
                turned@.len() == n - done,
                forall|i: int|
                    0 <= i < turned@.len() ==> (#[trigger] turned@[i])@ == log[n - 1 - i],
                self@ == replayed_onto(start, log.take(done as int)),
            decreases n - done,
        {
            let entry = turned.pop().unwrap();
            assert(entry@ == log[done as int]);
            self.apply(entry);
            proof {
                let next = log.take(done + 1);
                assert(next.drop_last() =~= log.take(done as int));
                assert(next.last() == log[done as int]);
            }
            done += 1;
        }
        assert(log.take(n as int) =~= log);
    }

    /// Replays the segment whose file holds `file` onto the store. A file
    /// that cannot be read to its end leaves the store as it was.
    pub fn replay_segment(&mut self, file: Vec<u8>) -> (r: Result<(), FramingError>)
        ensures
            match r {
                Ok(()) => Ok::<Objects, FramingError>(final(self)@) == with_segment(
                    old(self)@,
                    file@,
                ),
                Err(e) => Err::<Objects, FramingError>(e) == with_segment(old(self)@, file@)
                    && final(self)@ == old(self)@,
            },
    {
        match Segment::read(file) {
            Ok(entries) => {
                self.apply_all(entries);
                Ok(())
            },
            Err(e) => Err(e),
        }
    }

    /// The store that the log leaves behind, replayed from nothing.
    pub fn replay(entries: Vec<LogEntry>) -> (store: ObjectStore)
        ensures
            store@ == replayed(entries_view(entries@)),
    {
        let mut store = ObjectStore::new();
        store.apply_all(entries);
        store
    }
}

/// Replaying one log after another is replaying the two as one: the order
/// across segments is the order of the one sequence that they form.
pub proof fn lemma_replay_continues(start: Objects, first: Seq<Entry>, second: Seq<Entry>)
    ensures
        replayed_onto(replayed_onto(start, first), second) == replayed_onto(
            start,
            first + second,
        ),
    decreases second.len(),
{
    if second.len() == 0 {
        assert(first + second =~= first);
    } else {
        lemma_replay_continues(start, first, second.drop_last());
        assert((first + second).drop_last() =~= first + second.drop_last());
        assert((first + second).last() == second.last());
    }
}

/// Replay is determined by what the segment files hold: the same files,
/// read in the same order onto the same store, end in the same store or in
/// the same error.
pub proof fn lemma_replay_is_determined(
    start: Objects,
    files: Seq<Seq<u8>>,
    again: Seq<Seq<u8>>,
)
    requires
        files.len() == again.len(),
        forall|i: int| 0 <= i < files.len() ==> files[i] == again[i],
    ensures
        with_segments(start, files) == with_segments(start, again),
{
    assert(files =~= again);
}

/// Replaying segment after segment is replaying the entries of all of
/// them as one log.
pub proof fn lemma_segments_form_one_log(start: Objects, files: Seq<Seq<u8>>, file: Seq<u8>)
    ensures
        with_segments(start, files.push(file)) == match with_segments(start, files) {
            Ok(store) => with_segment(store, file),
            Err(e) => Err(e),
        },
{
    assert(files.push(file).drop_last() =~= files);
}

/// Entries that do not touch a key leave what is stored under it alone.
pub proof fn lemma_untouched_key_stays(start: Objects, log: Seq<Entry>, key: Seq<u8>)
    requires
        forall|i: int| 0 <= i < log.len() ==> !touches(#[trigger] log[i], key),
    ensures
        replayed_onto(start, log).contains_key(key) == start.contains_key(key),
        start.contains_key(key) ==> replayed_onto(start, log)[key] == start[key],
    decreases log.len(),
{
    if log.len() > 0 {
        let front = log.drop_last();
        assert forall|i: int| 0 <= i < front.len() implies !touches(#[trigger] front[i], key) by {
            assert(front[i] == log[i]);
        }
        lemma_untouched_key_stays(start, front, key);
        assert(!touches(log[log.len() - 1], key));
    }
}

/// The last writer wins: where entry `last` is the last one of the log that
/// touches `key`, the store holds under `key` what that entry put there, and
/// nothing if that entry is a DELETE.
pub proof fn lemma_last_writer_wins(log: Seq<Entry>, last: int, key: Seq<u8>)
    requires
        0 <= last < log.len(),
        touches(log[last], key),
        forall|i: int| last < i < log.len() ==> !touches(#[trigger] log[i], key),
    ensures
        match log[last] {
            Entry::Put { key: k, data } => replayed(log).contains_key(key) && replayed(log)[key]
                == data,
            Entry::Delete { key: k } => !replayed(log).contains_key(key),
            Entry::Commit => false,
        },
{
    let upto = log.take(last + 1);
    let behind = log.skip(last + 1);
    assert(upto + behind =~= log);
    lemma_replay_continues(Map::empty(), upto, behind);
    assert forall|i: int| 0 <= i < behind.len() implies !touches(#[trigger] behind[i], key) by {
        assert(behind[i] == log[last + 1 + i]);
    }
    lemma_untouched_key_stays(replayed(upto), behind, key);
    assert(upto.last() == log[last]);
}

/// A key that no entry of the log touches is not in the store.
pub proof fn lemma_never_written_is_absent(log: Seq<Entry>, key: Seq<u8>)
    requires
        forall|i: int| 0 <= i < log.len() ==> !touches(#[trigger] log[i], key),
    ensures
        !replayed(log).contains_key(key),
{
    lemma_untouched_key_stays(Map::empty(), log, key);
}

/// A DELETE erases: after a PUT of a key, a DELETE of it and a COMMIT, the
/// key is absent, whatever the store held before.
pub proof fn lemma_delete_erases(start: Objects, key: Seq<u8>, data: Seq<u8>)
    ensures
        !replayed_onto(
            start,
            seq![Entry::Put { key, data }, Entry::Delete { key }, Entry::Commit],
        ).contains_key(key),
{
    let log = seq![Entry::Put { key, data }, Entry::Delete { key }, Entry::Commit];
    lemma_replay_continues(start, log.take(2), log.skip(2));
    assert(log.take(2) + log.skip(2) =~= log);
    lemma_untouched_key_stays(replayed_onto(start, log.take(2)), log.skip(2), key);
    assert(log.take(2).last() == Entry::Delete { key });
}

/// A PUT after a DELETE brings the key back with the new blob.
pub proof fn lemma_put_after_delete_restores(start: Objects, key: Seq<u8>, data: Seq<u8>)
    ensures
        replayed_onto(start, seq![Entry::Delete { key }, Entry::Put { key, data }]).contains_key(
            key,
        ),
        replayed_onto(start, seq![Entry::Delete { key }, Entry::Put { key, data }])[key] == data,
{
    let log = seq![Entry::Delete { key }, Entry::Put { key, data }];
    assert(log.last() == Entry::Put { key, data });
}

} // verus!
