//! The in-memory index of the log-structured store.
//!
//! Every write is a record appended to the active log file; the index maps
//! each live key to the log, position and size of its latest record. The
//! index decides when logs are rotated or compacted, and rebuilds itself from
//! the logs on open. The caller moves the bytes: it appends the records the
//! index hands out, copies the records a compaction plan lists, and hands
//! back the bytes of logs and records it reads.

use vstd::prelude::*;
use vstd::hash_map::StringHashMap;
use crate::error::KvsError;
use crate::record::{
    Command, CommandView, ReadOutcome, postcard_read, stored_record, encode_command,
    read_record, write_record, ReadFailure, REPLAY_SCRATCH,
};
use std::collections::HashSet;
use vstd::string::StringExecFns;
use crate::format::{decimal, decimal_string};

verus! {

broadcast use {vstd::hash_map::group_hash_map_axioms, vstd::std_specs::hash::group_hash_axioms};

/// Size of the active log, in bytes, above which the next write starts a new
/// log.
pub const MAX_FILE_SIZE: u64 = 1024 * 1024;

/// Bytes of dead records above which the next write compacts the logs.
pub const COMPACTION_THRESHOLD: u64 = 4 * 1024 * 1024;

/// Where the latest record of a key lies.
#[derive(Clone, Copy, Debug, PartialEq, Eq, Structural)]
pub struct IndexEntry {
    /// Log holding the record.
    pub log_id: u64,
    /// Offset of the record within the log.
    pub value_position: u64,
    /// Size of the record in bytes.
    pub value_size: u64,
}

#[derive(Clone, Copy)]
struct Slot {
    position: usize,
    entry: IndexEntry,
}

impl IndexEntry {
    /// How the entry reads: `id=<log> pos=<position> sz=<size>`.
    pub fn describe(&self) -> (r: String)
        ensures
            r@ == "id="@ + decimal(self.log_id as nat) + " pos="@ + decimal(self.value_position as nat)
                + " sz="@ + decimal(self.value_size as nat),
    {
        let mut s = String::from_str("id=");
        s.append(decimal_string(self.log_id).as_str());
        s.append(" pos=");
        s.append(decimal_string(self.value_position).as_str());
        s.append(" sz=");
        s.append(decimal_string(self.value_size).as_str());
        s
    }
}

/// `x`, or `u64::MAX` where `x` does not fit.
pub open spec fn saturate(x: int) -> u64 {
    if x > u64::MAX {
        u64::MAX
    } else {
        x as u64
    }
}

/// The logical state of the store.
pub struct KvModel {
    /// Where the latest record of each live key lies.
    pub entries: Map<Seq<char>, IndexEntry>,
    /// The value of each live key.
    pub contents: Map<Seq<char>, Seq<char>>,
    /// The bytes of the latest record of each live key.
    pub records: Map<Seq<char>, Seq<u8>>,
    /// Bytes of records that no longer count: overwritten and removed values,
    /// and the removals themselves.
    pub uncompacted: u64,
}

impl KvModel {
    pub open spec fn empty() -> KvModel {
        KvModel {
            entries: Map::empty(),
            contents: Map::empty(),
            records: Map::empty(),
            uncompacted: 0,
        }
    }

    /// The effect of `record`, holding `c`, lying at `pos` in log `log_id`:
    /// writing it, and reading it back on open, follow this one rule.
    pub open spec fn apply(self, c: CommandView, log_id: u64, pos: u64, record: Seq<u8>) -> KvModel {
        match c {
            CommandView::Put { key, value } => KvModel {
                entries: self.entries.insert(
                    key,
                    IndexEntry { log_id, value_position: pos, value_size: record.len() as u64 },
                ),
                contents: self.contents.insert(key, value),
                records: self.records.insert(key, record),
                uncompacted: if self.entries.contains_key(key) {
                    saturate(self.uncompacted + self.entries[key].value_size)
                } else {
                    self.uncompacted
                },
            },
            CommandView::Remove { key } => KvModel {
                entries: self.entries.remove(key),
                contents: self.contents.remove(key),
                records: self.records.remove(key),
                uncompacted: if self.entries.contains_key(key) {
                    saturate(self.uncompacted + self.entries[key].value_size + record.len())
                } else {
                    saturate(self.uncompacted + record.len())
                },
            },
        }
    }

    /// Every live key has an entry, a value and a record that reads back as
    /// that value; the entry gives the record's size.
    pub open spec fn consistent(self) -> bool {
        &&& self.entries.dom().finite()
        &&& self.contents.dom() == self.entries.dom()
        &&& self.records.dom() == self.entries.dom()
        &&& forall|k: Seq<char>|
            #![trigger self.entries[k]]
            self.entries.contains_key(k) ==> {
                &&& self.entries[k].value_size == self.records[k].len()
                &&& self.entries[k].value_size <= usize::MAX
                &&& stored_record(
                    self.records[k],
                    CommandView::Put { key: k, value: self.contents[k] },
                )
            }
    }
}

/// What the caller has to do before the next write.
#[derive(Debug, PartialEq, Eq, Structural)]
pub enum Maintenance {
    /// Compact the logs.
    Compact,
    /// Start a new active log.
    Rotate,
    /// Nothing.
    Nothing,
}

/// A record to append to the active log, made by the index; once it is
/// written, [`KvIndex::commit`] takes it back.
pub struct PendingRecord {
    command: Command,
    bytes: Vec<u8>,
}

impl PendingRecord {
    #[verifier::type_invariant]
    spec fn well_formed(self) -> bool {
        &&& self.bytes@ == encode_command(self.command@)
        &&& stored_record(self.bytes@, self.command@)
    }

    /// The command the record holds.
    pub closed spec fn command_view(self) -> CommandView {
        self.command@
    }

    /// The bytes of the record.
    pub closed spec fn bytes_view(self) -> Seq<u8> {
        self.bytes@
    }

    fn new(command: Command) -> (r: PendingRecord)
        ensures
            r.command_view() == command@,
            r.bytes_view() == encode_command(command@),
    {
        let written = write_record(&command);
        match written {
            Ok(bytes) => PendingRecord { command, bytes },
            Err(_) => {
                proof {
                    assert(false);
                }
                PendingRecord { command, bytes: Vec::new() }
            },
        }
    }

    /// The record that sets `key` to `value`.
    pub fn put(key: String, value: String) -> (r: PendingRecord)
        ensures
            r.command_view() == (CommandView::Put { key: key@, value: value@ }),
            r.bytes_view() == encode_command(r.command_view()),
    {
        PendingRecord::new(Command::Put { key, value })
    }

    /// The record that removes `key`.
    pub fn remove(key: String) -> (r: PendingRecord)
        ensures
            r.command_view() == (CommandView::Remove { key: key@ }),
            r.bytes_view() == encode_command(r.command_view()),
    {
        PendingRecord::new(Command::Remove { key })
    }

    /// The bytes to append.
    pub fn bytes(&self) -> (r: &[u8])
        ensures
            r@ == self.bytes_view(),
    {
        self.bytes.as_slice()
    }

    /// The number of bytes to append.
    pub fn len(&self) -> (r: usize)
        ensures
            r == self.bytes_view().len(),
    {
        self.bytes.len()
    }
}

/// One live record to copy into the compaction log.
#[derive(Clone, Copy, Debug, PartialEq, Eq, Structural)]
pub struct Relocation {
    /// Log holding the record.
    pub source_log: u64,
    /// Offset of the record within that log.
    pub source_position: u64,
    /// Size of the record.
    pub size: u64,
}

/// What the caller does to compact the logs: create the compaction log and
/// copy into it, one after the other, the records that `relocations` lists;
/// then close (where open) and delete the obsolete logs, which are all the
/// logs in the directory before the compaction, and create the new, empty,
/// active log.
#[derive(Debug)]
pub struct CompactionPlan {
    /// The log that receives the live records.
    pub compaction_log: u64,
    /// The records to copy, in order.
    pub relocations: Vec<Relocation>,
    /// The logs to delete: every log in the directory before the compaction.
    pub obsolete_logs: Vec<u64>,
    /// The new active log.
    pub active_log: u64,
}

/// Where the record of `order[i]` starts when the records of the keys in
/// `order` are laid out one after the other.
pub open spec fn layout_offset(entries: Map<Seq<char>, IndexEntry>, order: Seq<Seq<char>>, i: int) -> int
    decreases i,
{
    if i <= 0 {
        0
    } else {
        layout_offset(entries, order, i - 1) + entries[order[i - 1]].value_size
    }
}

/// The index after a compaction into log `log`: each key of `order` points
/// at its place in the layout.
pub open spec fn compacted_entries(
    entries: Map<Seq<char>, IndexEntry>,
    order: Seq<Seq<char>>,
    log: u64,
) -> Map<Seq<char>, IndexEntry> {
    Map::new(
        |k: Seq<char>| entries.contains_key(k),
        |k: Seq<char>|
            {
                let i = order.index_of(k);
                IndexEntry {
                    log_id: log,
                    value_position: layout_offset(entries, order, i) as u64,
                    value_size: entries[k].value_size,
                }
            },
    )
}

proof fn lemma_layout_offset_monotonic(
    entries: Map<Seq<char>, IndexEntry>,
    order: Seq<Seq<char>>,
    i: int,
    j: int,
)
    requires
        0 <= i <= j,
    ensures
        layout_offset(entries, order, i) <= layout_offset(entries, order, j),
    decreases j,
{
    if i < j {
        lemma_layout_offset_monotonic(entries, order, i, j - 1);
    }
}

/// The total size of the latest records of the keys of `order`.
pub open spec fn live_bytes(entries: Map<Seq<char>, IndexEntry>, order: Seq<Seq<char>>) -> int {
    layout_offset(entries, order, order.len() as int)
}

/// Two layouts whose first `i` records have the same sizes end at the same
/// place.
proof fn lemma_layout_offset_frame(
    e1: Map<Seq<char>, IndexEntry>,
    o1: Seq<Seq<char>>,
    e2: Map<Seq<char>, IndexEntry>,
    o2: Seq<Seq<char>>,
    i: int,
)
    requires
        forall|j: int| 0 <= j < i ==> e1[o1[j]].value_size == e2[o2[j]].value_size,
    ensures
        layout_offset(e1, o1, i) == layout_offset(e2, o2, i),
    decreases i,
{
    if i > 0 {
        lemma_layout_offset_frame(e1, o1, e2, o2, i - 1);
    }
}

/// Two layouts whose first `i` records have the same sizes but at `p` end
/// apart by the difference of the sizes at `p`.
proof fn lemma_layout_offset_change(
    e1: Map<Seq<char>, IndexEntry>,
    o1: Seq<Seq<char>>,
    e2: Map<Seq<char>, IndexEntry>,
    o2: Seq<Seq<char>>,
    p: int,
    i: int,
)
    requires
        0 <= p < i,
        forall|j: int| 0 <= j < i && j != p ==> e1[o1[j]].value_size == e2[o2[j]].value_size,
    ensures
        layout_offset(e2, o2, i) == layout_offset(e1, o1, i) - e1[o1[p]].value_size
            + e2[o2[p]].value_size,
    decreases i,
{
    if i - 1 == p {
        lemma_layout_offset_frame(e1, o1, e2, o2, i - 1);
    } else {
        lemma_layout_offset_change(e1, o1, e2, o2, p, i - 1);
    }
}

/// The index of the log-structured store.
pub struct KvIndex {
    slots: StringHashMap<Slot>,
    keys: Vec<String>,
    uncompacted_bytes: u64,
    current_log_id: u64,
    active_len: u64,
    readers: Vec<u64>,
    contents: Ghost<Map<Seq<char>, Seq<char>>>,
    records: Ghost<Map<Seq<char>, Seq<u8>>>,
    history: Ghost<Seq<LogContents>>,
    intact: Ghost<bool>,
    stored: Vec<u64>,
    record_bytes: Ghost<int>,
    counted: Ghost<bool>,
}

impl View for KvIndex {
    type V = Map<Seq<char>, Seq<char>>;

    closed spec fn view(&self) -> Map<Seq<char>, Seq<char>> {
        self.contents@
    }
}

/// `s` is strictly increasing.
pub open spec fn strictly_increasing(s: Seq<u64>) -> bool {
    forall|i: int, j: int| 0 <= i < j < s.len() ==> s[i] < s[j]
}

impl KvIndex {
    /// Where the latest record of each live key lies.
    pub closed spec fn entries(self) -> Map<Seq<char>, IndexEntry> {
        Map::new(|k: Seq<char>| self.slots@.contains_key(k), |k: Seq<char>| self.slots@[k].entry)
    }

    /// The logical state.
    pub closed spec fn model(self) -> KvModel {
        KvModel {
            entries: self.entries(),
            contents: self.contents@,
            records: self.records@,
            uncompacted: self.uncompacted_bytes,
        }
    }

    /// The log that records are appended to.
    pub closed spec fn active_log(self) -> u64 {
        self.current_log_id
    }

    /// The size of the active log.
    pub closed spec fn active_size(self) -> u64 {
        self.active_len
    }

    /// The logs that are kept open for reading, in increasing order.
    pub closed spec fn open_logs(self) -> Seq<u64> {
        self.readers@
    }

    /// The live keys, in the order in which compaction lays them out.
    pub closed spec fn key_order(self) -> Seq<Seq<char>> {
        self.keys@.map_values(|s: String| s@)
    }

    closed spec fn keys_wf(self) -> bool {
        &&& self.slots@.dom().finite()
        &&& forall|i: int|
            #![trigger self.keys@[i]]
            0 <= i < self.keys@.len() ==> self.slots@.contains_key(self.keys@[i]@)
                && self.slots@[self.keys@[i]@].position == i
        &&& forall|k: Seq<char>|
            #![trigger self.slots@[k]]
            self.slots@.contains_key(k) ==> self.slots@[k].position < self.keys@.len()
                && self.keys@[self.slots@[k].position as int]@ == k
    }

    closed spec fn readers_wf(self) -> bool {
        &&& self.readers@.len() > 0
        &&& strictly_increasing(self.readers@)
        &&& self.readers@.last() == self.current_log_id
        &&& forall|k: Seq<char>|
            #![trigger self.slots@[k]]
            self.slots@.contains_key(k) ==> self.readers@.contains(self.slots@[k].entry.log_id)
    }

    /// Whether the logs are known to be read back, on open, as the index
    /// stands: no string written since open is longer than the replay
    /// scratch buffer, nothing was appended to a log after bytes that
    /// reading ignores, and no key was dropped without its removal being
    /// written.
    pub closed spec fn is_intact(self) -> bool {
        self.intact@
    }

    /// The logs in the directory, in increasing order, as the index knows
    /// them: their records and the bytes after them that reading ignores.
    pub closed spec fn logs(self) -> Seq<LogContents> {
        self.history@
    }

    /// The numbers and bytes of the logs.
    pub closed spec fn log_listing(self) -> Seq<(u64, Seq<u8>)> {
        listing_of(self.history@)
    }

    /// The bytes at the end of the active log that follow its last
    /// readable record and that reading on open ignores; empty where the log
    /// ends with a record.
    pub closed spec fn active_tail(self) -> Seq<u8> {
        self.history@.last().tail
    }

    /// The logs in the store's directory, in increasing order: those read
    /// on open and those created since, less those deleted.
    pub closed spec fn stored_logs(self) -> Seq<u64> {
        self.stored@
    }

    closed spec fn stored_wf(self) -> bool {
        &&& self.stored@.len() > 0
        &&& strictly_increasing(self.stored@)
        &&& self.stored@.last() == self.current_log_id
    }

    closed spec fn history_wf(self) -> bool {
        self.intact@ ==> {
            &&& self.history@.len() > 0
            &&& forall|i: int, j: int|
                0 <= i < j < self.history@.len() ==> self.history@[i].id < self.history@[j].id
            &&& self.history@.last().id == self.current_log_id
            &&& log_file(self.history@.last()).len() == self.active_len
            &&& forall|i: int, j: int|
                0 <= i < self.history@.len() && 0 <= j < self.history@[i].records.len()
                    ==> replayable(#[trigger] self.history@[i].records[j])
            &&& forall|i: int|
                0 <= i < self.history@.len() ==> log_file(#[trigger] self.history@[i]).len()
                    <= u64::MAX && ignored_tail(self.history@[i].tail)
            &&& replay_history(self.history@) == self.model()
            &&& self.history@.len() == self.stored@.len()
            &&& forall|i: int| 0 <= i < self.history@.len() ==> #[trigger] self.history@[i].id == self.stored@[i]
            &&& self.record_bytes@ == total_log_bytes(self.history@)
        }
    }

    closed spec fn count_wf(self) -> bool {
        self.counted@ ==> {
            &&& live_bytes(self.entries(), self.key_order()) <= self.record_bytes@
            &&& self.uncompacted_bytes == saturate(
                self.record_bytes@ - live_bytes(self.entries(), self.key_order()),
            )
        }
    }

    /// The size of the records written to the logs that are still in the
    /// directory: those read on open, those appended since, and those a
    /// compaction copied (the bytes after a log's last readable record on
    /// open are not counted).
    pub closed spec fn record_bytes(self) -> int {
        self.record_bytes@
    }

    /// Whether the dead-byte count covers every record in the logs that is
    /// not the latest record of a live key: it stops doing so once a key is
    /// dropped without its removal being written.
    pub closed spec fn dead_bytes_counted(self) -> bool {
        self.counted@
    }

    /// The invariant of the index.
    pub closed spec fn wf(self) -> bool {
        &&& self.keys_wf()
        &&& self.readers_wf()
        &&& self.stored_wf()
        &&& self.model().consistent()
        &&& self.history_wf()
        &&& self.count_wf()
    }

    proof fn lemma_wf_facts(self)
        requires
            self.wf(),
        ensures
            self.keys@.len() == self.slots@.len(),
            self.key_order().no_duplicates(),
            self.key_order().to_set() == self.entries().dom(),
            self.entries().dom() == self.slots@.dom(),
    {
        let order = self.key_order();
        assert(self.entries().dom() =~= self.slots@.dom());
        assert forall|k: Seq<char>| #[trigger] order.to_set().contains(k) <==> self.slots@.contains_key(k) by {
            if self.slots@.contains_key(k) {
                let p = self.slots@[k].position as int;
                assert(order[p] == k);
            }
            if order.to_set().contains(k) {
                let i = choose|i: int| 0 <= i < order.len() && order[i] == k;
                assert(self.keys@[i]@ == k);
            }
        }
        assert(order.to_set() =~= self.slots@.dom());
        assert forall|i: int, j: int| 0 <= i < j < order.len() implies order[i] != order[j] by {
            assert(self.slots@[self.keys@[i]@].position == i);
            assert(self.slots@[self.keys@[j]@].position == j);
        }
        order.unique_seq_to_set();
    }

    /// An index with no key and the empty log 0 active.
    fn empty() -> (r: KvIndex)
        ensures
            r.wf(),
            r.model() == KvModel::empty(),
            r.active_log() == 0,
            r.active_size() == 0,
            r.open_logs() == seq![0u64],
            r.key_order() == Seq::<Seq<char>>::empty(),
            r.uncompacted_bytes == 0,
    {
        let r = KvIndex {
            slots: StringHashMap::new(),
            keys: Vec::new(),
            uncompacted_bytes: 0,
            current_log_id: 0,
            active_len: 0,
            readers: vec![0u64],
            contents: Ghost(Map::empty()),
            records: Ghost(Map::empty()),
            history: Ghost(Seq::empty().push(LogContents { id: 0, records: Seq::empty(), tail: Seq::empty() })),
            intact: Ghost(true),
            stored: vec![0u64],
            record_bytes: Ghost(0),
            counted: Ghost(true),
        };
        assert(r.entries() =~= Map::empty());
        assert(r.readers@ =~= seq![0u64]);
        assert(r.history@.drop_last() =~= Seq::<LogContents>::empty());
        assert(r.history@.last().records =~= Seq::<LoggedRecord>::empty());
        assert(r.model().entries =~= KvModel::empty().entries);
        assert(replay_history(Seq::<LogContents>::empty()) == KvModel::empty());
        assert(r.history@.last().id == 0);
        assert(replay_history(r.history@) == replay_records(KvModel::empty(), 0, Seq::<LoggedRecord>::empty()));
        assert(log_bytes(Seq::<LoggedRecord>::empty()).len() == 0);
        assert(r.stored@ =~= seq![0u64]);
        assert(r.history@[0].id == 0);
        assert(total_log_bytes(Seq::<LogContents>::empty()) == 0);
        assert(total_log_bytes(r.history@) == 0);
        assert(r.key_order() =~= Seq::<Seq<char>>::empty());
        r
    }

    /// Sets the entry of `key`, adding `key` at the end of the key list if
    /// it is new.
    fn set_entry(&mut self, key: String, entry: IndexEntry)
        requires
            old(self).keys_wf(),
        ensures
            final(self).keys_wf(),
            final(self).entries() == old(self).entries().insert(key@, entry),
            final(self).slots@.dom() == old(self).slots@.dom().insert(key@),
            final(self).key_order() == (if old(self).slots@.contains_key(key@) {
                old(self).key_order()
            } else {
                old(self).key_order().push(key@)
            }),
            live_bytes(final(self).entries(), final(self).key_order()) == live_bytes(
                old(self).entries(),
                old(self).key_order(),
            ) - (if old(self).slots@.contains_key(key@) {
                old(self).entries()[key@].value_size as int
            } else {
                0
            }) + entry.value_size,
            final(self).uncompacted_bytes == old(self).uncompacted_bytes,
            final(self).current_log_id == old(self).current_log_id,
            final(self).active_len == old(self).active_len,
            final(self).readers == old(self).readers,
            final(self).contents == old(self).contents,
            final(self).records == old(self).records,
            final(self).history == old(self).history,
            final(self).intact == old(self).intact,
            final(self).stored == old(self).stored,
            final(self).record_bytes == old(self).record_bytes,
            final(self).counted == old(self).counted,
    {
        let position = match self.slots.get(key.as_str()) {
            Some(slot) => slot.position,
            None => {
                let p = self.keys.len();
                self.keys.push(key.clone());
                p
            },
        };
        let ghost mid_keys = self.keys@;
        self.slots.insert(key, Slot { position, entry });
        proof {
            assert(self.entries() =~= old(self).entries().insert(key@, entry));
            assert forall|i: int|
                #![trigger self.keys@[i]]
                0 <= i < self.keys@.len() implies self.slots@.contains_key(self.keys@[i]@)
                && self.slots@[self.keys@[i]@].position == i by {
                if self.keys@[i]@ != key@ {
                    assert(old(self).keys@[i] == self.keys@[i]);
                }
            }
            assert(self.key_order() =~= (if old(self).slots@.contains_key(key@) {
                old(self).key_order()
            } else {
                old(self).key_order().push(key@)
            }));
            let e1 = old(self).entries();
            let e2 = self.entries();
            let o1 = old(self).key_order();
            let o2 = self.key_order();
            let n = o1.len() as int;
            if old(self).slots@.contains_key(key@) {
                let p = old(self).slots@[key@].position as int;
                assert(o1[p] == key@);
                assert forall|j: int| 0 <= j < n && j != p implies e1[o1[j]].value_size
                    == e2[o2[j]].value_size by {
                    assert(old(self).keys@[j]@ == o1[j]);
                    assert(old(self).slots@[o1[j]].position == j);
                }
                lemma_layout_offset_change(e1, o1, e2, o2, p, n);
            } else {
                assert forall|j: int| 0 <= j < n implies e1[o1[j]].value_size
                    == e2[o2[j]].value_size by {
                    assert(old(self).keys@[j]@ == o1[j]);
                    assert(old(self).slots@.contains_key(o1[j]));
                }
                lemma_layout_offset_frame(e1, o1, e2, o2, n);
                assert(o2[n] == key@);
            }
        }
    }

    /// Removes the live `key`; the last key of the key list takes its place.
    fn remove_entry(&mut self, key: &str)
        requires
            old(self).keys_wf(),
            old(self).slots@.contains_key(key@),
        ensures
            final(self).keys_wf(),
            final(self).entries() == old(self).entries().remove(key@),
            final(self).slots@.dom() == old(self).slots@.dom().remove(key@),
            live_bytes(final(self).entries(), final(self).key_order()) == live_bytes(
                old(self).entries(),
                old(self).key_order(),
            ) - old(self).entries()[key@].value_size,
            final(self).uncompacted_bytes == old(self).uncompacted_bytes,
            final(self).current_log_id == old(self).current_log_id,
            final(self).active_len == old(self).active_len,
            final(self).readers == old(self).readers,
            final(self).contents == old(self).contents,
            final(self).records == old(self).records,
            final(self).history == old(self).history,
            final(self).intact == old(self).intact,
            final(self).stored == old(self).stored,
            final(self).record_bytes == old(self).record_bytes,
            final(self).counted == old(self).counted,
    {
        let position = match self.slots.get(key) {
            Some(slot) => slot.position,
            None => {
                proof {
                    assert(false);
                }
                0
            },
        };
        let last = self.keys.len() - 1;
        self.slots.remove(key);
        self.keys.swap_remove(position);
        if position < last {
            let moved = self.keys[position].clone();
            let ghost moved_key = moved@;
            assert(moved_key == old(self).keys@[last as int]@);
            assert(old(self).slots@.contains_key(moved_key));
            let entry = match self.slots.get(moved.as_str()) {
                Some(slot) => slot.entry,
                None => {
                    proof {
                        assert(false);
                    }
                    IndexEntry { log_id: 0, value_position: 0, value_size: 0 }
                },
            };
            self.slots.insert(moved, Slot { position, entry });
            proof {
                assert forall|i: int|
                    #![trigger self.keys@[i]]
                    0 <= i < self.keys@.len() implies self.slots@.contains_key(self.keys@[i]@)
                    && self.slots@[self.keys@[i]@].position == i by {
                    if i != position {
                        assert(self.keys@[i] == old(self).keys@[i]);
                        assert(old(self).slots@[old(self).keys@[i]@].position == i);
                        assert(old(self).keys@[i]@ != key@);
                        assert(old(self).keys@[i]@ != moved_key);
                    }
                }
                assert forall|k: Seq<char>|
                    #![trigger self.slots@[k]]
                    self.slots@.contains_key(k) implies self.slots@[k].position < self.keys@.len()
                    && self.keys@[self.slots@[k].position as int]@ == k by {
                    if k != moved_key {
                        let p = old(self).slots@[k].position as int;
                        assert(old(self).keys@[p]@ == k);
                        assert(p != position);
                        assert(p != last);
                    }
                }
            }
        } else {
            proof {
                assert forall|k: Seq<char>|
                    #![trigger self.slots@[k]]
                    self.slots@.contains_key(k) implies self.slots@[k].position < self.keys@.len()
                    && self.keys@[self.slots@[k].position as int]@ == k by {
                    let p = old(self).slots@[k].position as int;
                    assert(old(self).keys@[p]@ == k);
                    assert(p != position);
                }
                assert forall|i: int|
                    #![trigger self.keys@[i]]
                    0 <= i < self.keys@.len() implies self.slots@.contains_key(self.keys@[i]@)
                    && self.slots@[self.keys@[i]@].position == i by {
                    assert(self.keys@[i] == old(self).keys@[i]);
                    assert(old(self).slots@[old(self).keys@[i]@].position == i);
                }
            }
        }
        proof {
            assert(self.entries() =~= old(self).entries().remove(key@));
            assert(self.slots@.dom() =~= old(self).slots@.dom().remove(key@));
            let e1 = old(self).entries();
            let e2 = self.entries();
            let o1 = old(self).key_order();
            let o2 = self.key_order();
            let n = o1.len() as int;
            let p = position as int;
            assert(o1[p] == key@);
            assert(self.keys@ == old(self).keys@.update(p, old(self).keys@.last()).drop_last());
            assert forall|j: int| 0 <= j < n && j != p implies o1[j] != key@ by {
                assert(old(self).keys@[j]@ == o1[j]);
                assert(old(self).slots@[o1[j]].position == j);
            }
            if p < n - 1 {
                assert forall|j: int| 0 <= j < n - 1 && j != p implies e1[o1[j]].value_size
                    == e2[o2[j]].value_size by {
                    assert(o2[j] == o1[j]);
                }
                assert(o2[p] == o1[n - 1]);
                lemma_layout_offset_change(e1, o1, e2, o2, p, n - 1);
            } else {
                assert forall|j: int| 0 <= j < n - 1 implies e1[o1[j]].value_size
                    == e2[o2[j]].value_size by {
                    assert(o2[j] == o1[j]);
                }
                lemma_layout_offset_frame(e1, o1, e2, o2, n - 1);
            }
        }
    }

    /// Takes back a record that the caller has appended to the active log:
    /// the record now lies at the old end of that log, and the index follows
    /// it as recovery would when reading it back.
    #[verifier::spinoff_prover]
    pub fn commit(&mut self, record: PendingRecord)
        requires
            old(self).wf(),
            old(self).active_size() + record.bytes_view().len() <= u64::MAX,
        ensures
            final(self).wf(),
            final(self).model() == old(self).model().apply(
                record.command_view(),
                old(self).active_log(),
                old(self).active_size(),
                record.bytes_view(),
            ),
            final(self)@ == (match record.command_view() {
                CommandView::Put { key, value } => old(self)@.insert(key, value),
                CommandView::Remove { key } => old(self)@.remove(key),
            }),
            final(self).active_size() == old(self).active_size() + record.bytes_view().len(),
            final(self).active_log() == old(self).active_log(),
            final(self).open_logs() == old(self).open_logs(),
            final(self).is_intact() == (old(self).is_intact()
                && record.command_view().longest_string() <= REPLAY_SCRATCH
                && old(self).active_tail().len() == 0),
            final(self).stored_logs() == old(self).stored_logs(),
            final(self).active_tail() == old(self).active_tail(),
            final(self).record_bytes() == old(self).record_bytes() + record.bytes_view().len(),
            final(self).dead_bytes_counted() == old(self).dead_bytes_counted(),
            final(self).is_intact() ==> final(self).logs() == old(self).logs().update(
                old(self).logs().len() - 1,
                LogContents {
                    id: old(self).active_log(),
                    records: old(self).logs().last().records.push(
                        LoggedRecord { bytes: record.bytes_view(), command: record.command_view() },
                    ),
                    tail: old(self).active_tail(),
                },
            ),
            final(self).is_intact() ==> final(self).log_listing() == old(self).log_listing().update(
                old(self).log_listing().len() - 1,
                (old(self).active_log(), old(self).log_listing().last().1 + record.bytes_view()),
            ),
    {
        proof {
            use_type_invariant(&record);
        }
        let ghost cmd = record.command_view();
        let ghost bytes_view = record.bytes_view();
        let PendingRecord { command, bytes } = record;
        let size = bytes.len() as u64;
        let pos = self.active_len;
        let log_id = self.current_log_id;
        self.apply_command(command, Ghost(bytes@), size, pos);
        self.active_len = pos + size;
        proof {
            let live0 = live_bytes(old(self).entries(), old(self).key_order());
            let live1 = live_bytes(self.entries(), self.key_order());
            if old(self).counted@ {
                lemma_saturate_add(old(self).record_bytes@ - live0, live0 + size - live1);
            }
            self.record_bytes@ = old(self).record_bytes@ + size;
            let h = old(self).history@;
            if old(self).intact@ && cmd.longest_string() <= REPLAY_SCRATCH && h.last().tail.len() == 0 {
                let last = h.last();
                let r = LoggedRecord { bytes: bytes_view, command: cmd };
                let nl = LogContents { id: last.id, records: last.records.push(r), tail: last.tail };
                let nh = h.update(h.len() - 1, nl);
                assert(nl.records.drop_last() =~= last.records);
                assert(nh.drop_last() =~= h.drop_last());
                assert(nh.last() == nl);
                assert(replay_history(h) == replay_records(replay_history(h.drop_last()), last.id, last.records));
                assert(replay_history(nh) == replay_records(replay_history(h.drop_last()), last.id, nl.records));
                assert(replay_history(nh) == self.model());
                assert forall|i: int| 0 <= i < nh.len() implies #[trigger] nh[i].id == self.stored@[i] by {
                    assert(h[i].id == self.stored@[i]);
                }
                assert(log_bytes(nl.records) == log_bytes(last.records) + r.bytes);
                assert(total_log_bytes(nh) == total_log_bytes(h) + bytes_view.len());
                self.history@ = nh;
                assert forall|i: int, j: int|
                    0 <= i < nh.len() && 0 <= j < nh[i].records.len()
                        implies replayable(#[trigger] nh[i].records[j]) by {
                    if i < h.len() - 1 {
                        assert(nh[i] == h[i]);
                    } else if j < last.records.len() {
                        assert(nh[i].records[j] == h[i].records[j]);
                    }
                }
                assert(last.tail =~= Seq::<u8>::empty());
                assert(log_file(nl) =~= log_file(last) + r.bytes);
                assert(listing_of(nh) =~= listing_of(h).update(h.len() - 1, (last.id, log_file(last) + r.bytes)));
                assert forall|i: int|
                    0 <= i < nh.len() implies log_file(#[trigger] nh[i]).len() <= u64::MAX
                        && ignored_tail(nh[i].tail) by {
                    if i < h.len() - 1 {
                        assert(nh[i] == h[i]);
                    }
                }
            } else {
                self.intact@ = false;
            }
            assert forall|k: Seq<char>|
                #![trigger self.slots@[k]]
                self.slots@.contains_key(k) implies self.readers@.contains(
                self.slots@[k].entry.log_id,
            ) by {
                assert(self.entries().contains_key(k));
                assert(self.entries()[k] == self.slots@[k].entry);
                if k != cmd.key() {
                    assert(old(self).entries().contains_key(k));
                    assert(old(self).entries()[k] == self.entries()[k]);
                    assert(old(self).entries()[k] == old(self).slots@[k].entry);
                } else {
                    assert(self.readers@[self.readers@.len() - 1] == log_id);
                }
            }
        }
    }

    /// Follows `command`, held by `record`, which lies at `pos` in the log
    /// `current_log_id`.
    fn apply_command(&mut self, command: Command, record: Ghost<Seq<u8>>, size: u64, pos: u64)
        requires
            old(self).keys_wf(),
            old(self).model().consistent(),
            stored_record(record@, command@),
            record@.len() == size,
            size <= usize::MAX,
        ensures
            final(self).keys_wf(),
            final(self).model().consistent(),
            final(self).model() == old(self).model().apply(
                command@,
                old(self).current_log_id,
                pos,
                record@,
            ),
            ({
                let gain = live_bytes(old(self).entries(), old(self).key_order()) + size
                    - live_bytes(final(self).entries(), final(self).key_order());
                gain >= 0 && final(self).uncompacted_bytes == saturate(old(self).uncompacted_bytes + gain)
            }),
            final(self).current_log_id == old(self).current_log_id,
            final(self).active_len == old(self).active_len,
            final(self).readers == old(self).readers,
            final(self).history == old(self).history,
            final(self).intact == old(self).intact,
            final(self).stored == old(self).stored,
            final(self).record_bytes == old(self).record_bytes,
            final(self).counted == old(self).counted,
    {
        let ghost old_model = self.model();
        let ghost cmd = command@;
        let log_id = self.current_log_id;
        match command {
            Command::Put { key, value } => {
                let old_size = match self.slots.get(key.as_str()) {
                    Some(slot) => Some(slot.entry.value_size),
                    None => None,
                };
                let ghost k = key@;
                let entry = IndexEntry { log_id, value_position: pos, value_size: size };
                self.set_entry(key, entry);
                if let Some(old_size) = old_size {
                    self.uncompacted_bytes = self.uncompacted_bytes.saturating_add(old_size);
                }
                proof {
                    self.contents@ = self.contents@.insert(k, value@);
                    self.records@ = self.records@.insert(k, record@);
                }
            },
            Command::Remove { key } => {
                let old_size = match self.slots.get(key.as_str()) {
                    Some(slot) => Some(slot.entry.value_size),
                    None => None,
                };
                let ghost k = key@;
                if let Some(old_size) = old_size {
                    self.remove_entry(key.as_str());
                    self.uncompacted_bytes = self.uncompacted_bytes.saturating_add(old_size);
                }
                self.uncompacted_bytes = self.uncompacted_bytes.saturating_add(size);
                proof {
                    self.contents@ = self.contents@.remove(k);
                    self.records@ = self.records@.remove(k);
                }
            },
        }
        proof {
            let new_model = old_model.apply(cmd, log_id, pos, record@);
            assert(self.model().entries =~= new_model.entries);
            assert(self.model().contents =~= new_model.contents);
            assert(self.model().records =~= new_model.records);
            assert(self.model() == new_model);
            assert(self.model().contents.dom() =~= self.model().entries.dom());
            assert(self.model().records.dom() =~= self.model().entries.dom());
        }
    }

    /// The record that removes `key`, if `key` is live; a missing key is
    /// [`KvsError::KeyNotFound`], and nothing is to be written.
    pub fn prepare_remove(&self, key: String) -> (r: Result<PendingRecord, KvsError>)
        requires
            self.wf(),
        ensures
            match r {
                Ok(p) => {
                    &&& self@.contains_key(key@)
                    &&& p.command_view() == (CommandView::Remove { key: key@ })
                    &&& p.bytes_view() == encode_command(p.command_view())
                },
                Err(e) => !self@.contains_key(key@) && e is KeyNotFound,
            },
    {
        if self.slots.contains_key(key.as_str()) {
            Ok(PendingRecord::remove(key))
        } else {
            Err(KvsError::KeyNotFound)
        }
    }

    /// Drops `key` from the index without writing anything, as a removal
    /// does when writing its record fails: the key is no longer live, the
    /// dead bytes are unchanged, and the index no longer claims to match
    /// its logs.
    pub fn forget(&mut self, key: &str)
        requires
            old(self).wf(),
        ensures
            final(self).wf(),
            final(self)@ == old(self)@.remove(key@),
            final(self).entries() == old(self).entries().remove(key@),
            final(self).model().uncompacted == old(self).model().uncompacted,
            final(self).active_log() == old(self).active_log(),
            final(self).active_size() == old(self).active_size(),
            final(self).open_logs() == old(self).open_logs(),
            final(self).stored_logs() == old(self).stored_logs(),
            final(self).active_tail() == old(self).active_tail(),
            final(self).record_bytes() == old(self).record_bytes(),
            !final(self).is_intact(),
            !final(self).dead_bytes_counted(),
    {
        if self.slots.contains_key(key) {
            self.remove_entry(key);
        } else {
            proof {
                assert(old(self).entries().remove(key@) =~= old(self).entries());
            }
        }
        proof {
            self.contents@ = self.contents@.remove(key@);
            self.records@ = self.records@.remove(key@);
            self.intact@ = false;
            self.counted@ = false;
            assert(self.model().contents.dom() =~= self.model().entries.dom());
            assert(self.model().records.dom() =~= self.model().entries.dom());
            assert forall|k: Seq<char>|
                #![trigger self.slots@[k]]
                self.slots@.contains_key(k) implies self.readers@.contains(
                self.slots@[k].entry.log_id,
            ) by {
                assert(self.entries().contains_key(k));
                assert(old(self).entries().contains_key(k));
                assert(old(self).entries()[k] == old(self).slots@[k].entry);
                assert(self.entries()[k] == self.slots@[k].entry);
            }
        }
    }

    /// What the caller has to do before the next write: compact once the
    /// dead bytes pass [`COMPACTION_THRESHOLD`], else start a new log once
    /// the active one passes [`MAX_FILE_SIZE`].
    pub fn maintenance(&self) -> (r: Maintenance)
        ensures
            r == (if self.model().uncompacted > COMPACTION_THRESHOLD {
                Maintenance::Compact
            } else if self.active_size() > MAX_FILE_SIZE {
                Maintenance::Rotate
            } else {
                Maintenance::Nothing
            }),
    {
        if self.uncompacted_bytes > COMPACTION_THRESHOLD {
            Maintenance::Compact
        } else if self.active_len > MAX_FILE_SIZE {
            Maintenance::Rotate
        } else {
            Maintenance::Nothing
        }
    }

    /// Starts a new, empty active log, numbered one past the current one,
    /// and returns its number; the caller creates it and opens it for
    /// reading and appending.
    pub fn rotate(&mut self) -> (id: u64)
        requires
            old(self).wf(),
            old(self).active_log() < u64::MAX,
        ensures
            final(self).wf(),
            id == old(self).active_log() + 1,
            final(self).active_log() == id,
            final(self).active_size() == 0,
            final(self).open_logs() == old(self).open_logs().push(id),
            final(self).stored_logs() == old(self).stored_logs().push(id),
            final(self).is_intact() == old(self).is_intact(),
            final(self).active_tail() == Seq::<u8>::empty(),
            final(self).record_bytes() == old(self).record_bytes(),
            final(self).dead_bytes_counted() == old(self).dead_bytes_counted(),
            final(self).is_intact() ==> final(self).logs() == old(self).logs().push(
                LogContents { id, records: Seq::empty(), tail: Seq::empty() },
            ) && final(self).log_listing() == old(self).log_listing().push((id, Seq::<u8>::empty())),
            final(self).model() == old(self).model(),
            final(self)@ == old(self)@,
    {
        let id = self.current_log_id + 1;
        self.current_log_id = id;
        self.active_len = 0;
        self.readers.push(id);
        self.stored.push(id);
        proof {
            assert forall|i: int, j: int| 0 <= i < j < self.stored@.len() implies self.stored@[i]
                < self.stored@[j] by {
                if j == self.stored@.len() - 1 {
                    assert(old(self).stored@[i] <= old(self).stored@.last());
                }
            }
            let h = old(self).history@;
            let nh = h.push(LogContents { id, records: Seq::empty(), tail: Seq::empty() });
            self.history@ = nh;
            assert(log_file(nh.last()) =~= Seq::<u8>::empty());
            assert(listing_of(nh) =~= listing_of(h).push((id, Seq::<u8>::empty())));
            if self.intact@ {
                assert forall|i: int| 0 <= i < nh.len() implies #[trigger] nh[i].id == self.stored@[i] by {
                    if i < h.len() {
                        assert(h[i].id == old(self).stored@[i]);
                    }
                }
                assert(nh.drop_last() =~= h);
                assert(nh.last().records =~= Seq::<LoggedRecord>::empty());
                assert(log_bytes(Seq::<LoggedRecord>::empty()).len() == 0);
                assert(total_log_bytes(nh) == total_log_bytes(h));
                assert(self.key_order() == old(self).key_order());
                assert(replay_history(nh) == replay_records(replay_history(h), id, Seq::<LoggedRecord>::empty()));
                assert(self.entries() =~= old(self).entries());
                assert forall|i: int, j: int|
                    0 <= i < j < nh.len() implies nh[i].id < nh[j].id by {
                    if j < h.len() {
                        assert(nh[i] == h[i] && nh[j] == h[j]);
                    } else {
                        assert(nh[i] == h[i]);
                        assert(h[i].id <= h.last().id);
                    }
                }
                assert forall|i: int, j: int|
                    0 <= i < nh.len() && 0 <= j < nh[i].records.len() implies replayable(
                    #[trigger] nh[i].records[j],
                ) by {
                    assert(i < h.len());
                    assert(nh[i] == h[i]);
                }
                assert forall|i: int|
                    0 <= i < nh.len() implies log_bytes(#[trigger] nh[i].records).len() <= u64::MAX by {
                    if i < h.len() {
                        assert(nh[i] == h[i]);
                    }
                }
            }
            assert forall|k: Seq<char>|
                #![trigger self.slots@[k]]
                self.slots@.contains_key(k) implies self.readers@.contains(
                self.slots@[k].entry.log_id,
            ) by {
                let j = choose|j: int|
                    0 <= j < old(self).readers@.len() && old(self).readers@[j]
                        == self.slots@[k].entry.log_id;
                assert(self.readers@[j] == old(self).readers@[j]);
            }
            assert(self.entries() =~= old(self).entries());
        }
        id
    }

    /// The value that a record read back from a log holds: the record is
    /// decoded with a scratch buffer of the entry's size, and must set a
    /// value.
    pub fn value_from_record(record: &[u8], entry: IndexEntry) -> (r: Result<String, KvsError>)
        ensures
            match postcard_read(record@, entry.value_size as usize as nat) {
                ReadOutcome::Decoded(CommandView::Put { value, .. }, _) => r is Ok && r->Ok_0@
                    == value,
                ReadOutcome::Decoded(CommandView::Remove { .. }, _) => r matches Err(
                    KvsError::UnexpectedCommandType,
                ),
                _ => r matches Err(KvsError::Serde(_)),
            },
    {
        match read_record(record, entry.value_size as usize) {
            Ok((Command::Put { value, .. }, _)) => Ok(value),
            Ok((Command::Remove { .. }, _)) => Err(KvsError::UnexpectedCommandType),
            Err(ReadFailure::UnexpectedEnd(e)) => Err(KvsError::Serde(e)),
            Err(ReadFailure::Rejected(e)) => Err(KvsError::Serde(e)),
        }
    }

    /// Where the layout of the live records in key-list order ends, if it
    /// fits in `u64`.
    fn layout_total(&self) -> (r: Option<u64>)
        requires
            self.wf(),
        ensures
            ({
                let end = layout_offset(self.entries(), self.key_order(), self.key_order().len() as int);
                match r {
                    Some(t) => end <= u64::MAX && t == end,
                    None => end > u64::MAX,
                }
            }),
    {
        let ghost order = self.key_order();
        let ghost e = self.entries();
        let n = self.keys.len();
        let mut total: u64 = 0;
        let mut i: usize = 0;
        while i < n
            invariant
                self.wf(),
                self.key_order() == order,
                self.entries() == e,
                n == self.keys@.len(),
                order.len() == n,
                0 <= i <= n,
                total == layout_offset(e, order, i as int),
            decreases n - i,
        {
            let size = match self.slots.get(self.keys[i].as_str()) {
                Some(slot) => slot.entry.value_size,
                None => {
                    proof {
                        assert(false);
                    }
                    0
                },
            };
            assert(order[i as int] == self.keys@[i as int]@);
            assert(size == e[order[i as int]].value_size);
            match total.checked_add(size) {
                Some(t) => total = t,
                None => {
                    proof {
                        lemma_layout_offset_monotonic(e, order, i + 1, n as int);
                    }
                    return None;
                },
            }
            i = i + 1;
        }
        Some(total)
    }

    /// Points every live key at its place in the compaction log `log` and
    /// lists the records to copy there.
    fn relocate_entries(&mut self, log: u64) -> (relocations: Vec<Relocation>)
        requires
            old(self).keys_wf(),
            layout_offset(old(self).entries(), old(self).key_order(), old(self).key_order().len() as int)
                <= u64::MAX,
        ensures
            final(self).keys_wf(),
            final(self).keys == old(self).keys,
            final(self).slots@.dom() == old(self).slots@.dom(),
            final(self).entries() == compacted_entries(old(self).entries(), old(self).key_order(), log),
            relocations@.len() == old(self).key_order().len(),
            forall|i: int|
                0 <= i < old(self).key_order().len() ==> #[trigger] relocations@[i] == (Relocation {
                    source_log: old(self).entries()[old(self).key_order()[i]].log_id,
                    source_position: old(self).entries()[old(self).key_order()[i]].value_position,
                    size: old(self).entries()[old(self).key_order()[i]].value_size,
                }),
            final(self).uncompacted_bytes == old(self).uncompacted_bytes,
            final(self).current_log_id == old(self).current_log_id,
            final(self).active_len == old(self).active_len,
            final(self).readers == old(self).readers,
            final(self).contents == old(self).contents,
            final(self).records == old(self).records,
            final(self).history == old(self).history,
            final(self).intact == old(self).intact,
            final(self).stored == old(self).stored,
            final(self).record_bytes == old(self).record_bytes,
            final(self).counted == old(self).counted,
    {
        let ghost order = self.key_order();
        let ghost e = self.entries();
        let ghost old_slots = self.slots@;
        let n = self.keys.len();
        let mut relocations: Vec<Relocation> = Vec::new();
        let mut position: u64 = 0;
        let mut j: usize = 0;
        while j < n
            invariant
                self.keys == old(self).keys,
                self.uncompacted_bytes == old(self).uncompacted_bytes,
                self.current_log_id == old(self).current_log_id,
                self.active_len == old(self).active_len,
                self.readers == old(self).readers,
                self.contents == old(self).contents,
                self.records == old(self).records,
                self.history == old(self).history,
                self.intact == old(self).intact,
                self.stored == old(self).stored,
                self.record_bytes == old(self).record_bytes,
                self.counted == old(self).counted,
                order == self.key_order(),
                n == self.keys@.len(),
                0 <= j <= n,
                layout_offset(e, order, n as int) <= u64::MAX,
                position == layout_offset(e, order, j as int),
                self.slots@.dom() == old_slots.dom(),
                old_slots == old(self).slots@,
                e == old(self).entries(),
                old(self).keys_wf(),
                relocations@.len() == j,
                forall|t: int|
                    0 <= t < j ==> #[trigger] relocations@[t] == (Relocation {
                        source_log: e[order[t]].log_id,
                        source_position: e[order[t]].value_position,
                        size: e[order[t]].value_size,
                    }),
                forall|t: int|
                    #![trigger self.keys@[t]]
                    0 <= t < j ==> self.slots@[self.keys@[t]@] == (Slot {
                        position: t as usize,
                        entry: IndexEntry {
                            log_id: log,
                            value_position: layout_offset(e, order, t) as u64,
                            value_size: e[order[t]].value_size,
                        },
                    }),
                forall|t: int|
                    #![trigger self.keys@[t]]
                    j <= t < n ==> self.slots@[self.keys@[t]@] == old_slots[self.keys@[t]@],
            decreases n - j,
        {
            let key = self.keys[j].clone();
            let ghost kv = key@;
            assert(kv == order[j as int]);
            assert(self.slots@[kv] == old_slots[kv]);
            let entry = match self.slots.get(key.as_str()) {
                Some(slot) => slot.entry,
                None => {
                    proof {
                        assert(false);
                    }
                    IndexEntry { log_id: 0, value_position: 0, value_size: 0 }
                },
            };
            assert(entry == e[kv]);
            relocations.push(
                Relocation {
                    source_log: entry.log_id,
                    source_position: entry.value_position,
                    size: entry.value_size,
                },
            );
            proof {
                lemma_layout_offset_monotonic(e, order, j as int + 1, n as int);
            }
            let new_entry = IndexEntry { log_id: log, value_position: position, value_size: entry.value_size };
            self.slots.insert(key, Slot { position: j, entry: new_entry });
            position = position + entry.value_size;
            j = j + 1;
            proof {
                assert forall|t: int|
                    #![trigger self.keys@[t]]
                    0 <= t < j implies self.slots@[self.keys@[t]@] == (Slot {
                        position: t as usize,
                        entry: IndexEntry {
                            log_id: log,
                            value_position: layout_offset(e, order, t) as u64,
                            value_size: e[order[t]].value_size,
                        },
                    }) by {
                    if t < j - 1 {
                        assert(self.keys@[t]@ != kv);
                    }
                }
                assert forall|t: int|
                    #![trigger self.keys@[t]]
                    j <= t < n implies self.slots@[self.keys@[t]@] == old_slots[self.keys@[t]@] by {
                    assert(self.keys@[t]@ != kv);
                }
                assert(self.slots@.dom() =~= old_slots.dom());
            }
        }
        proof {
            assert forall|t: int|
                #![trigger self.keys@[t]]
                0 <= t < self.keys@.len() implies self.slots@.contains_key(self.keys@[t]@)
                && self.slots@[self.keys@[t]@].position == t by {
                assert(old_slots.contains_key(self.keys@[t]@));
            }
            assert forall|k: Seq<char>|
                #![trigger self.slots@[k]]
                self.slots@.contains_key(k) implies self.slots@[k].position < self.keys@.len()
                && self.keys@[self.slots@[k].position as int]@ == k by {
                let p = old_slots[k].position as int;
                assert(self.keys@[p]@ == k);
                assert(self.slots@[self.keys@[p]@].position == p);
            }
            old(self).lemma_keys_distinct();
            let ce = compacted_entries(e, order, log);
            assert forall|k: Seq<char>| #[trigger] self.entries().contains_key(k) == ce.contains_key(k)
                by {
                assert(self.slots@.dom().contains(k) == old_slots.dom().contains(k));
            }
            assert forall|k: Seq<char>| ce.contains_key(k) implies #[trigger] self.entries()[k] == ce[k]
                by {
                let p = old_slots[k].position as int;
                assert(old(self).keys@[p]@ == k);
                assert(order[p] == k);
                assert(order.index_of(k) == p) by {
                    assert(order.contains(k));
                    let q = order.index_of(k);
                    assert(order[q] == k);
                }
            }
            assert(self.entries() =~= ce);
        }
        relocations
    }

    proof fn lemma_keys_distinct(self)
        requires
            self.keys_wf(),
        ensures
            self.key_order().no_duplicates(),
            self.key_order().len() == self.keys@.len(),
    {
        let order = self.key_order();
        assert forall|i: int, j: int| 0 <= i < j < order.len() implies order[i] != order[j] by {
            assert(self.slots@[self.keys@[i]@].position == i);
            assert(self.slots@[self.keys@[j]@].position == j);
        }
    }

    /// Plans a compaction: the live records move, in key-list order, to a
    /// new log numbered one past the active one; every log open before is
    /// obsolete; a new, empty, active log follows the compaction log; no
    /// byte is dead any more. `None`, with the index unchanged, where the
    /// live records do not fit in a log of `u64::MAX` bytes: their positions
    /// would overflow.
    #[verifier::spinoff_prover]
    pub fn plan_compaction(&mut self) -> (r: Option<CompactionPlan>)
        requires
            old(self).wf(),
            old(self).active_log() <= u64::MAX - 2,
        ensures
            final(self).wf(),
            ({
                let order = old(self).key_order();
                let e = old(self).entries();
                match r {
                    None => {
                        &&& layout_offset(e, order, order.len() as int) > u64::MAX
                        &&& final(self).model() == old(self).model()
                        &&& final(self).active_log() == old(self).active_log()
                        &&& final(self).active_size() == old(self).active_size()
                        &&& final(self).open_logs() == old(self).open_logs()
                        &&& final(self).key_order() == order
                        &&& final(self).stored_logs() == old(self).stored_logs()
                        &&& final(self).is_intact() == old(self).is_intact()
                        &&& final(self).logs() == old(self).logs()
                        &&& final(self).record_bytes() == old(self).record_bytes()
                        &&& final(self).dead_bytes_counted() == old(self).dead_bytes_counted()
                    },
                    Some(plan) => {
                        &&& layout_offset(e, order, order.len() as int) <= u64::MAX
                        &&& plan.compaction_log == old(self).active_log() + 1
                        &&& plan.active_log == old(self).active_log() + 2
                        &&& plan.obsolete_logs@ == old(self).stored_logs()
                        &&& forall|i: int|
                            0 <= i < plan.obsolete_logs@.len() ==> #[trigger] plan.obsolete_logs@[i]
                                < plan.compaction_log
                        &&& plan.relocations@.len() == order.len()
                        &&& forall|i: int|
                            0 <= i < order.len() ==> #[trigger] plan.relocations@[i] == (Relocation {
                                source_log: e[order[i]].log_id,
                                source_position: e[order[i]].value_position,
                                size: e[order[i]].value_size,
                            })
                        &&& final(self).entries() == compacted_entries(e, order, plan.compaction_log)
                        &&& final(self)@ == old(self)@
                        &&& final(self).model().records == old(self).model().records
                        &&& final(self).model().uncompacted == 0
                        &&& final(self).active_log() == plan.active_log
                        &&& final(self).active_size() == 0
                        &&& final(self).open_logs() == seq![plan.compaction_log, plan.active_log]
                        &&& final(self).key_order() == order
                        &&& final(self).stored_logs() == seq![plan.compaction_log, plan.active_log]
                        &&& final(self).logs() == seq![
                            LogContents {
                                id: plan.compaction_log,
                                records: compaction_records(old(self).model(), order),
                                tail: Seq::empty(),
                            },
                            LogContents { id: plan.active_log, records: Seq::empty(), tail: Seq::empty() },
                        ]
                        &&& final(self).log_listing() == seq![
                            (plan.compaction_log, log_bytes(compaction_records(old(self).model(), order))),
                            (plan.active_log, Seq::<u8>::empty()),
                        ]
                        &&& final(self).active_tail() == Seq::<u8>::empty()
                        &&& final(self).record_bytes() == live_bytes(e, order)
                        &&& final(self).dead_bytes_counted()
                        &&& final(self).is_intact() == (forall|j: int|
                            0 <= j < order.len() ==> (CommandView::Put {
                                key: order[j],
                                value: old(self)@[order[j]],
                            }).longest_string() <= REPLAY_SCRATCH)
                    },
                }
            }),
    {
        let ghost order = self.key_order();
        let ghost e = self.entries();
        if self.layout_total().is_none() {
            return None;
        }
        let compaction_log = self.current_log_id + 1;
        let active_log = compaction_log + 1;
        let relocations = self.relocate_entries(compaction_log);
        let mut obsolete_logs = vec![compaction_log, active_log];
        std::mem::swap(&mut obsolete_logs, &mut self.stored);
        self.readers = vec![compaction_log, active_log];
        self.current_log_id = active_log;
        self.active_len = 0;
        self.uncompacted_bytes = 0;
        proof {
            let ce = compacted_entries(e, order, compaction_log);
            assert(self.entries() == ce);
            assert(self.key_order() =~= order);
            assert(self.model().entries.dom() =~= old(self).model().entries.dom());
            assert forall|k: Seq<char>|
                #![trigger self.slots@[k]]
                self.slots@.contains_key(k) implies self.readers@.contains(
                self.slots@[k].entry.log_id,
            ) by {
                assert(self.entries()[k] == ce[k]);
                assert(self.readers@[0] == compaction_log);
            }
            assert forall|k: Seq<char>|
                #![trigger self.model().entries[k]]
                self.model().entries.contains_key(k) implies {
                &&& self.model().entries[k].value_size == self.model().records[k].len()
                &&& self.model().entries[k].value_size <= usize::MAX
                &&& stored_record(
                    self.model().records[k],
                    CommandView::Put { key: k, value: self.model().contents[k] },
                )
            } by {
                assert(self.entries()[k] == ce[k]);
                assert(old(self).model().entries[k] == e[k]);
            }
            assert(self.readers@ =~= seq![compaction_log, active_log]);
            let m = old(self).model();
            old(self).lemma_wf_facts();
            lemma_replay_compaction(m, order, compaction_log);
            let crecs = compaction_records(m, order);
            let cl = LogContents { id: compaction_log, records: crecs, tail: Seq::empty() };
            let al = LogContents { id: active_log, records: Seq::empty(), tail: Seq::empty() };
            let nh = Seq::empty().push(cl).push(al);
            self.history@ = nh;
            self.intact@ = forall|j: int| 0 <= j < crecs.len() ==> (#[trigger] crecs[j]).command.longest_string() <= REPLAY_SCRATCH;
            self.record_bytes@ = live_bytes(e, order);
            self.counted@ = true;
            assert forall|j: int| 0 <= j < order.len() implies e[order[j]].value_size
                == self.entries()[order[j]].value_size by {
                assert(order.to_set().contains(order[j]));
            }
            lemma_layout_offset_frame(e, order, self.entries(), self.key_order(), order.len() as int);
            assert(self.stored@ =~= seq![compaction_log, active_log]);
            assert forall|i: int| 0 <= i < obsolete_logs@.len() implies #[trigger] obsolete_logs@[i]
                < compaction_log by {
                assert(obsolete_logs@[i] <= old(self).stored@.last());
            }
            assert(crecs.len() == order.len());
            assert forall|j: int| 0 <= j < order.len() implies (#[trigger] crecs[j]).command == (
            CommandView::Put { key: order[j], value: old(self)@[order[j]] }) by {
                assert(old(self)@ == m.contents);
            }
            assert(self.intact@ == (forall|j: int|
                0 <= j < order.len() ==> (CommandView::Put {
                    key: order[j],
                    value: old(self)@[order[j]],
                }).longest_string() <= REPLAY_SCRATCH)) by {
                if forall|j: int| 0 <= j < order.len() ==> (CommandView::Put {
                    key: order[j],
                    value: old(self)@[order[j]],
                }).longest_string() <= REPLAY_SCRATCH {
                    assert forall|j: int| 0 <= j < crecs.len() implies (#[trigger] crecs[j]).command.longest_string()
                        <= REPLAY_SCRATCH by {
                        assert(crecs[j].command == (CommandView::Put { key: order[j], value: old(self)@[order[j]] }));
                    }
                }
                if forall|j: int| 0 <= j < crecs.len() ==> (#[trigger] crecs[j]).command.longest_string()
                    <= REPLAY_SCRATCH {
                    assert forall|j: int| 0 <= j < order.len() implies (CommandView::Put {
                        key: order[j],
                        value: old(self)@[order[j]],
                    }).longest_string() <= REPLAY_SCRATCH by {
                        assert(crecs[j].command == (CommandView::Put { key: order[j], value: old(self)@[order[j]] }));
                    }
                }
            }
            if self.intact@ {
                assert(nh.drop_last() =~= Seq::empty().push(cl));
                assert(nh.drop_last().drop_last() =~= Seq::<LogContents>::empty());
                assert(replay_history(Seq::<LogContents>::empty()) == KvModel::empty());
                assert(replay_history(nh.drop_last()) == replay_records(KvModel::empty(), compaction_log, crecs));
                assert(al.records =~= Seq::<LoggedRecord>::empty());
                assert(replay_history(nh) == replay_history(nh.drop_last()));
                assert(self.model().entries =~= compacted_entries(m.entries, order, compaction_log));
                assert(self.model() == replay_history(nh));
                assert(log_bytes(Seq::<LoggedRecord>::empty()).len() == 0);
                assert forall|i: int, j: int|
                    0 <= i < nh.len() && 0 <= j < nh[i].records.len() implies replayable(
                    #[trigger] nh[i].records[j],
                ) by {
                    assert(nh[0] == cl);
                    assert(nh[1] == al);
                    assert(i == 0);
                    let k = order[j];
                    assert(m.entries.contains_key(k)) by {
                        assert(order.to_set().contains(k));
                    }
                    assert(m.entries[k].value_size == m.records[k].len());
                    assert(crecs[j] == LoggedRecord {
                        bytes: m.records[order[j]],
                        command: CommandView::Put { key: order[j], value: m.contents[order[j]] },
                    });
                    assert(crecs[j].command.longest_string() <= REPLAY_SCRATCH);
                }
                assert forall|i: int|
                    0 <= i < nh.len() implies log_bytes(#[trigger] nh[i].records).len() <= u64::MAX by {
                    assert(nh[0] == cl);
                    assert(nh[1] == al);
                }
                assert(nh[0].id == compaction_log);
                assert(nh[1].id == active_log);
                assert(nh.drop_last().last() == cl);
                assert(total_log_bytes(Seq::<LogContents>::empty()) == 0);
                assert(total_log_bytes(nh.drop_last()) == log_bytes(crecs).len());
                assert(total_log_bytes(nh) == log_bytes(crecs).len());
            }
        }
        Some(CompactionPlan { compaction_log, relocations, obsolete_logs, active_log })
    }

    /// Bytes of records that no longer count.
    pub fn uncompacted_bytes(&self) -> (r: u64)
        ensures
            r == self.model().uncompacted,
    {
        self.uncompacted_bytes
    }

    /// The log that records are appended to.
    pub fn current_log_id(&self) -> (r: u64)
        ensures
            r == self.active_log(),
    {
        self.current_log_id
    }

    /// The size of the active log.
    pub fn active_len(&self) -> (r: u64)
        ensures
            r == self.active_size(),
    {
        self.active_len
    }

    /// The logs that must be open for reading, in increasing order.
    pub fn open_log_ids(&self) -> (r: &Vec<u64>)
        ensures
            r@ == self.open_logs(),
    {
        &self.readers
    }

    /// The number of live keys.
    pub fn len(&self) -> (r: usize)
        requires
            self.wf(),
        ensures
            r == self@.len(),
    {
        proof {
            self.lemma_wf_facts();
            assert(self.contents@.dom() == self.slots@.dom());
        }
        self.keys.len()
    }

    /// Whether `key` is live.
    pub fn contains_key(&self, key: &str) -> (r: bool)
        requires
            self.wf(),
        ensures
            r == self@.contains_key(key@),
    {
        self.slots.contains_key(key)
    }

    /// Where the latest record of `key` lies, if `key` is live.
    pub fn locate(&self, key: &str) -> (r: Option<IndexEntry>)
        requires
            self.wf(),
        ensures
            self@.contains_key(key@) == self.entries().contains_key(key@),
            match r {
                Some(e) => self.entries().contains_key(key@) && e == self.entries()[key@],
                None => !self.entries().contains_key(key@),
            },
    {
        match self.slots.get(key) {
            Some(slot) => Some(slot.entry),
            None => None,
        }
    }
}

/// The bytes of a log, from `pos` on, that reading on open leaves unread:
/// from where a record runs out of bytes (or holds a string too long for the
/// replay scratch buffer) to the end; empty where every byte is read, or
/// where a record is refused.
pub open spec fn unread_tail(bytes: Seq<u8>, pos: nat) -> Seq<u8>
    decreases bytes.len() - pos,
{
    if pos >= bytes.len() {
        Seq::empty()
    } else {
        match postcard_read(bytes.subrange(pos as int, bytes.len() as int), REPLAY_SCRATCH as nat) {
            ReadOutcome::Decoded(_, n) => if 0 < n && pos + n <= bytes.len() {
                unread_tail(bytes, pos + n)
            } else {
                Seq::empty()
            },
            ReadOutcome::UnexpectedEnd => bytes.subrange(pos as int, bytes.len() as int),
            ReadOutcome::Rejected => Seq::empty(),
        }
    }
}

/// How reading one log on open ends.
pub enum LogReplay {
    /// Every byte of the log was read.
    Complete(KvModel),
    /// Reading stopped before the end of the log, where the bytes ran out in
    /// the middle of a record or a string did not fit the scratch buffer;
    /// the rest of the log is ignored.
    Truncated(KvModel),
    /// A record was refused.
    Failed,
}

/// Reading the log `log_id`, whose bytes are `bytes`, from `pos` on, with
/// the state `m` so far: records are read one after the other with a
/// scratch buffer of [`REPLAY_SCRATCH`] bytes, each followed with
/// [`KvModel::apply`].
pub open spec fn replay_log_from(m: KvModel, log_id: u64, bytes: Seq<u8>, pos: nat) -> LogReplay
    decreases bytes.len() - pos,
{
    if pos >= bytes.len() {
        LogReplay::Complete(m)
    } else {
        match postcard_read(bytes.subrange(pos as int, bytes.len() as int), REPLAY_SCRATCH as nat) {
            ReadOutcome::Decoded(c, n) => if 0 < n && pos + n <= bytes.len() {
                replay_log_from(
                    m.apply(c, log_id, pos as u64, bytes.subrange(pos as int, (pos + n) as int)),
                    log_id,
                    bytes,
                    pos + n,
                )
            } else {
                LogReplay::Failed
            },
            ReadOutcome::UnexpectedEnd => LogReplay::Truncated(m),
            ReadOutcome::Rejected => LogReplay::Failed,
        }
    }
}

/// The logs `h` are those of the listing `l`, in the same order, with the
/// same bytes; every listed log fits positions of `u64`, and the bytes
/// after a log's records are ignored on open.
spec fn ids_match(h: Seq<LogContents>, l: Seq<(u64, Seq<u8>)>) -> bool {
    &&& h.len() == l.len()
    &&& forall|i: int|
        0 <= i < h.len() ==> #[trigger] h[i].id == l[i].0 && l[i].1.len() <= u64::MAX && log_file(h[i])
            == l[i].1 && ignored_tail(h[i].tail)
}

/// Logs that match a listing are the logs it lists; where its numbers
/// increase, so do theirs.
proof fn lemma_history_matches_listing(h: Seq<LogContents>, l: Seq<(u64, Seq<u8>)>)
    requires
        ids_match(h, l),
    ensures
        listing_of(h) == l,
        forall|i: int|
            0 <= i < h.len() ==> log_file(#[trigger] h[i]).len() <= u64::MAX && ignored_tail(h[i].tail),
        (forall|i: int, j: int| 0 <= i < j < l.len() ==> l[i].0 < l[j].0) ==> forall|i: int, j: int|
            0 <= i < j < h.len() ==> h[i].id < h[j].id,
{
    assert forall|i: int| 0 <= i < h.len() implies log_file(#[trigger] h[i]).len() <= u64::MAX
        && ignored_tail(h[i].tail) by {
        assert(h[i].id == l[i].0);
    }
    assert(listing_of(h) =~= l) by {
        assert forall|i: int| 0 <= i < l.len() implies #[trigger] listing_of(h)[i] == l[i] by {
            assert(h[i].id == l[i].0);
        }
    }
    if forall|i: int, j: int| 0 <= i < j < l.len() ==> l[i].0 < l[j].0 {
        assert forall|i: int, j: int| 0 <= i < j < h.len() implies h[i].id < h[j].id by {
            assert(h[i].id == l[i].0);
            assert(h[j].id == l[j].0);
        }
    }
}

proof fn lemma_ids_match_push(
    h: Seq<LogContents>,
    l: Seq<(u64, Seq<u8>)>,
    log: LogContents,
    bytes: Seq<u8>,
)
    requires
        ids_match(h, l),
        bytes.len() <= u64::MAX,
        log_file(log) == bytes,
        ignored_tail(log.tail),
    ensures
        ids_match(h.push(log), l.push((log.id, bytes))),
{
    let nh = h.push(log);
    let nl = l.push((log.id, bytes));
    assert forall|i: int| 0 <= i < nh.len() implies #[trigger] nh[i].id == nl[i].0 && nl[i].1.len()
        <= u64::MAX && log_file(nh[i]) == nl[i].1 && ignored_tail(nh[i].tail) by {
        if i < h.len() {
            assert(nh[i] == h[i]);
            assert(nl[i] == l[i]);
        }
    }
}

/// Rebuilds the index on open from the logs, read in increasing order of
/// their numbers.
pub struct Recovery {
    index: KvIndex,
    replayed: Vec<u64>,
    listing: Ghost<Seq<(u64, Seq<u8>)>>,
    complete: Ghost<bool>,
}

impl Recovery {
    /// The state rebuilt so far.
    pub closed spec fn model(self) -> KvModel {
        self.index.model()
    }

    /// The logs read so far, each once, in increasing order.
    pub closed spec fn replayed_logs(self) -> Seq<u64> {
        self.replayed@
    }

    /// The numbers and bytes of the logs read so far, in the order read.
    pub closed spec fn listing(self) -> Seq<(u64, Seq<u8>)> {
        self.listing@
    }

    /// The size of the last log read.
    pub closed spec fn last_size(self) -> u64 {
        self.index.active_len
    }

    /// The bytes at the end of the last log read that reading left unread.
    pub closed spec fn last_tail(self) -> Seq<u8> {
        self.index.history@.last().tail
    }

    closed spec fn trace_wf(self) -> bool {
        let h = self.index.history@;
        let l = self.listing@;
        &&& ids_match(h, l)
        &&& forall|i: int, j: int|
            0 <= i < h.len() && 0 <= j < h[i].records.len() ==> replayable(#[trigger] h[i].records[j])
        &&& replay_history(h) == self.index.model()
        &&& replay_listing(KvModel::empty(), l) == (if self.complete@ {
            LogReplay::Complete(self.index.model())
        } else {
            LogReplay::Truncated(self.index.model())
        })
        &&& forall|i: int, j: int| 0 <= i < j < l.len() ==> l[i].0 < l[j].0
        &&& self.index.intact@
        &&& l.len() > 0 ==> l.last().0 == self.index.current_log_id && l.last().1.len()
            == self.index.active_len
        &&& forall|i: int| 0 <= i < l.len() ==> #[trigger] self.replayed@.contains(l[i].0)
        &&& self.replayed@.len() > 0 ==> l.len() > 0
        &&& self.replayed@ == listing_numbers(l)
        &&& live_bytes(self.index.entries(), self.index.key_order()) <= total_log_bytes(h)
        &&& self.index.uncompacted_bytes == saturate(
            total_log_bytes(h) - live_bytes(self.index.entries(), self.index.key_order()),
        )
    }

    /// The invariant of a recovery.
    pub closed spec fn wf(self) -> bool {
        &&& self.index.keys_wf()
        &&& self.index.model().consistent()
        &&& strictly_increasing(self.replayed@)
        &&& self.replayed@.len() > 0 ==> self.replayed@.last() == self.index.current_log_id
        &&& self.replayed@.len() == 0 ==> self.index.current_log_id == 0 && self.index.active_len == 0
            && self.listing@.len() == 0
        &&& forall|k: Seq<char>|
            #![trigger self.index.slots@[k]]
            self.index.slots@.contains_key(k) ==> self.replayed@.contains(
                self.index.slots@[k].entry.log_id,
            )
        &&& self.trace_wf()
    }

    /// A recovery that has read nothing yet.
    pub fn new() -> (r: Recovery)
        ensures
            r.wf(),
            r.model() == KvModel::empty(),
            r.replayed_logs() == Seq::<u64>::empty(),
            r.listing() == Seq::<(u64, Seq<u8>)>::empty(),
            r.last_size() == 0,
    {
        let mut index = KvIndex::empty();
        proof {
            index.history@ = Seq::empty();
            index.intact@ = true;
        }
        let r = Recovery { index, replayed: Vec::new(), listing: Ghost(Seq::empty()), complete: Ghost(true) };
        assert forall|k: Seq<char>| !r.index.slots@.contains_key(k) by {
            assert(!r.index.entries().contains_key(k));
        }
        assert(r.replayed@ =~= Seq::<u64>::empty());
        assert(r.index.key_order() =~= Seq::<Seq<char>>::empty());
        assert(total_log_bytes(r.index.history@) == 0);
        assert(listing_numbers(r.listing@) =~= r.replayed@);
        r
    }

    /// Reads the log `log_id`, whose bytes are `bytes`: records are read
    /// one after the other until the bytes end; a record that cannot be
    /// read to its end, or a string that does not fit the scratch buffer,
    /// ends the log early; a refused record fails the recovery. Logs are
    /// read once each, in increasing order of their numbers.
    #[verifier::spinoff_prover]
    pub fn replay_log(&mut self, log_id: u64, bytes: &[u8]) -> (r: Result<(), KvsError>)
        requires
            old(self).wf(),
            old(self).replayed_logs().len() > 0 ==> old(self).replayed_logs().last() < log_id,
            bytes@.len() <= u64::MAX,
        ensures
            r is Ok ==> final(self).wf(),
            match replay_log_from(old(self).model(), log_id, bytes@, 0) {
                LogReplay::Complete(m) => r is Ok && final(self).model() == m,
                LogReplay::Truncated(m) => r is Ok && final(self).model() == m,
                LogReplay::Failed => r matches Err(KvsError::Serde(_)),
            },
            match replay_listing(KvModel::empty(), old(self).listing().push((log_id, bytes@))) {
                LogReplay::Complete(m) => r is Ok && final(self).model() == m,
                LogReplay::Truncated(m) => r is Ok && final(self).model() == m,
                LogReplay::Failed => r matches Err(KvsError::Serde(_)),
            },
            r is Ok ==> final(self).listing() == old(self).listing().push((log_id, bytes@)),
            r is Ok ==> final(self).replayed_logs() == (if old(self).replayed_logs().len() > 0
                && old(self).replayed_logs().last() == log_id {
                old(self).replayed_logs()
            } else {
                old(self).replayed_logs().push(log_id)
            }),
            r is Ok ==> final(self).last_size() == bytes@.len(),
            r is Ok ==> final(self).last_tail() == unread_tail(bytes@, 0),
    {
        let ghost start = self.model();
        let ghost h0 = self.index.history@;
        let ghost l0 = self.listing@;
        let ghost fresh = self.replayed.len() == 0 || self.replayed@.last() < log_id;
        if self.replayed.len() == 0 || self.replayed[self.replayed.len() - 1] != log_id {
            self.replayed.push(log_id);
        }
        self.index.current_log_id = log_id;
        self.index.active_len = bytes.len() as u64;
        let ghost mut recs: Seq<LoggedRecord> = Seq::empty();
        proof {
            assert forall|k: Seq<char>|
                #![trigger self.index.slots@[k]]
                self.index.slots@.contains_key(k) implies self.replayed@.contains(
                self.index.slots@[k].entry.log_id,
            ) by {
                assert(old(self).index.slots@.contains_key(k));
                assert(old(self).replayed@.contains(old(self).index.slots@[k].entry.log_id));
                let j = choose|j: int|
                    0 <= j < old(self).replayed@.len() && old(self).replayed@[j]
                        == self.index.slots@[k].entry.log_id;
                assert(self.replayed@[j] == old(self).replayed@[j]);
            }
            assert(self.index.entries() =~= old(self).index.entries());
            assert(self.model() == start);
            self.index.history@ = h0.push(LogContents { id: log_id, records: recs, tail: Seq::empty() });
            assert(log_bytes(recs) =~= bytes@.subrange(0, 0));
            assert(self.index.history@.drop_last() =~= h0);
        }
        let ghost replayed_now = self.replayed@;
        let len = bytes.len();
        let mut pos: usize = 0;
        loop
            invariant
                self.index.keys_wf(),
                self.index.model().consistent(),
                strictly_increasing(self.replayed@),
                self.replayed@.len() > 0,
                self.replayed@.last() == log_id,
                forall|k: Seq<char>|
                    #![trigger self.index.slots@[k]]
                    self.index.slots@.contains_key(k) ==> self.replayed@.contains(
                        self.index.slots@[k].entry.log_id,
                    ),
                self.replayed@ == replayed_now,
                replayed_now == (if old(self).replayed@.len() > 0 && old(self).replayed@.last() == log_id {
                    old(self).replayed@
                } else {
                    old(self).replayed@.push(log_id)
                }),
                fresh == (old(self).replayed@.len() == 0 || old(self).replayed@.last() < log_id),
                old(self).replayed@.len() > 0 ==> old(self).replayed@.last() < log_id,
                start == old(self).model(),
                h0 == old(self).index.history@,
                l0 == old(self).listing@,
                self.listing@ == l0,
                self.complete@ == old(self).complete@,
                self.index.intact@ == old(self).index.intact@,
                old(self).trace_wf(),
                old(self).wf(),
                self.index.current_log_id == log_id,
                self.index.active_len == len,
                len == bytes@.len(),
                len <= u64::MAX,
                pos <= len,
                self.index.history@ == h0.push(LogContents { id: log_id, records: recs, tail: Seq::empty() }),
                log_bytes(recs) == bytes@.subrange(0, pos as int),
                forall|j: int| 0 <= j < recs.len() ==> replayable(#[trigger] recs[j]),
                replay_records(start, log_id, recs) == self.model(),
                replay_history(h0) == start,
                live_bytes(self.index.entries(), self.index.key_order()) <= total_log_bytes(h0) + pos,
                self.index.uncompacted_bytes == saturate(
                    total_log_bytes(h0) + pos - live_bytes(self.index.entries(), self.index.key_order()),
                ),
                unread_tail(bytes@, 0) == unread_tail(bytes@, pos as nat),
                replay_log_from(start, log_id, bytes@, 0) == replay_log_from(
                    self.model(),
                    log_id,
                    bytes@,
                    pos as nat,
                ),
            decreases len - pos,
        {
            let rest = vstd::slice::slice_subrange(bytes, pos, len);
            match read_record(rest, REPLAY_SCRATCH) {
                Ok((command, left)) => {
                    let used = (len - pos) - left;
                    let ghost record = bytes@.subrange(pos as int, pos + used);
                    assert(rest@.subrange(0, rest@.len() - left) =~= record);
                    let ghost cmd = command@;
                    let ghost before = self.model();
                    let ghost slots_before = self.index.slots@;
                    let ghost live0 = live_bytes(self.index.entries(), self.index.key_order());
                    proof {
                        assert(rest@ =~= bytes@.subrange(pos as int, len as int));
                        assert(replay_log_from(before, log_id, bytes@, pos as nat) == replay_log_from(
                            before.apply(cmd, log_id, pos as u64, record),
                            log_id,
                            bytes@,
                            (pos + used) as nat,
                        ));
                        assert(unread_tail(bytes@, pos as nat) == unread_tail(bytes@, (pos + used) as nat));
                    }
                    self.index.apply_command(command, Ghost(record), used as u64, pos as u64);
                    proof {
                        let live1 = live_bytes(self.index.entries(), self.index.key_order());
                        lemma_saturate_add(total_log_bytes(h0) + pos - live0, live0 + used - live1);
                        assert forall|k: Seq<char>|
                            #![trigger self.index.slots@[k]]
                            self.index.slots@.contains_key(k) implies self.replayed@.contains(
                            self.index.slots@[k].entry.log_id,
                        ) by {
                            assert(self.index.entries().contains_key(k));
                            assert(self.index.entries()[k] == self.index.slots@[k].entry);
                            if k != cmd.key() {
                                assert(before.entries.contains_key(k));
                                assert(before.entries[k] == self.index.entries()[k]);
                                assert(slots_before.contains_key(k));
                                assert(before.entries[k] == slots_before[k].entry);
                            } else {
                                assert(self.replayed@[self.replayed@.len() - 1] == log_id);
                            }
                        }
                        let lr = LoggedRecord { bytes: record, command: cmd };
                        let nrecs = recs.push(lr);
                        assert(nrecs.drop_last() =~= recs);
                        assert(log_bytes(nrecs) =~= bytes@.subrange(0, pos + used));
                        assert(replay_records(start, log_id, nrecs) == self.model());
                        recs = nrecs;
                        self.index.history@ = h0.push(LogContents { id: log_id, records: recs, tail: Seq::empty() });
                    }
                    pos = pos + used;
                },
                Err(ReadFailure::UnexpectedEnd(_)) => {
                    proof {
                        assert(rest@ =~= bytes@.subrange(pos as int, len as int));
                        if pos < len {
                            assert(postcard_read(rest@, REPLAY_SCRATCH as nat) == ReadOutcome::UnexpectedEnd);
                            assert(replay_log_from(self.model(), log_id, bytes@, pos as nat) == LogReplay::Truncated(self.model()));
                            self.complete@ = false;
                        } else {
                            assert(replay_log_from(self.model(), log_id, bytes@, pos as nat) == LogReplay::Complete(self.model()));
                            assert(bytes@.subrange(0, pos as int) =~= bytes@);
                        }
                        let l = l0.push((log_id, bytes@));
                        self.listing@ = l;
                        assert(l.drop_last() =~= l0);
                        assert(l.last() == (log_id, bytes@));
                        let tail = bytes@.subrange(pos as int, len as int);
                        let lc = LogContents { id: log_id, records: recs, tail };
                        assert(log_file(lc) =~= bytes@);
                        assert(tail.len() > 0 ==> tail =~= rest@);
                        let h = h0.push(lc);
                        self.index.history@ = h;
                        assert(unread_tail(bytes@, pos as nat) =~= tail);
                        assert(h.drop_last() =~= h0);
                        assert(h.last() == lc);
                        assert(replay_history(h) == self.model());
                        assert(log_bytes(recs).len() == pos);
                        assert(total_log_bytes(h) == total_log_bytes(h0) + pos);
                        lemma_ids_match_push(h0, l0, lc, bytes@);
                        assert(old(self).replayed@ == listing_numbers(l0));
                        if l0.len() > 0 {
                            assert(listing_numbers(l0)[l0.len() - 1] == l0[l0.len() - 1].0);
                            assert(old(self).replayed@.len() == l0.len());
                            assert(old(self).replayed@.last() == old(self).replayed@[l0.len() - 1]);
                            assert(l0[l0.len() - 1].0 < log_id);
                        }
                        assert forall|i: int, j: int| 0 <= i < j < l.len() implies l[i].0 < l[j].0 by {
                            if j < l0.len() {
                                assert(l[i] == l0[i]);
                                assert(l[j] == l0[j]);
                            } else if l0.len() > 0 {
                                assert(l[i] == l0[i]);
                                assert(l0[i].0 <= l0[l0.len() - 1].0);
                            }
                        }
                        assert(self.replayed@ =~= listing_numbers(l));
                        assert forall|i: int, j: int|
                            0 <= i < h.len() && 0 <= j < h[i].records.len() implies replayable(
                            #[trigger] h[i].records[j],
                        ) by {
                            if i < h0.len() {
                                assert(h[i] == h0[i]);
                            }
                        }
                        assert forall|i: int| 0 <= i < l.len() implies #[trigger] self.replayed@.contains(l[i].0) by {
                            if i < l0.len() {
                                assert(l[i] == l0[i]);
                                assert(old(self).replayed@.contains(l0[i].0));
                                let t = choose|t: int| 0 <= t < old(self).replayed@.len() && old(self).replayed@[t] == l0[i].0;
                                assert(self.replayed@[t] == old(self).replayed@[t]);
                            } else {
                                assert(self.replayed@[self.replayed@.len() - 1] == log_id);
                            }
                        }
                    }
                    return Ok(());
                },
                Err(ReadFailure::Rejected(e)) => {
                    proof {
                        assert(rest@ =~= bytes@.subrange(pos as int, len as int));
                        assert(pos < len);
                        assert(replay_log_from(self.model(), log_id, bytes@, pos as nat) == LogReplay::Failed);
                        let l = l0.push((log_id, bytes@));
                        assert(l.drop_last() =~= l0);
                        assert(l.last() == (log_id, bytes@));
                    }
                    return Err(KvsError::Serde(e));
                },
            }
        }
    }

    /// The index rebuilt from the logs read: the active log is the last one
    /// read (or log 0 when none was), and the logs to keep open are the
    /// active one and those that hold a live record; the logs in the
    /// directory are those read. The index knows the logs as they were read,
    /// a log that ended early included, and a later open reads back what it
    /// then holds.
    #[verifier::spinoff_prover]
    pub fn finish(self) -> (r: KvIndex)
        requires
            self.wf(),
        ensures
            r.wf(),
            r.model() == self.model(),
            r.active_log() == (if self.replayed_logs().len() > 0 {
                self.replayed_logs().last()
            } else {
                0
            }),
            r.active_size() == self.last_size(),
            strictly_increasing(r.open_logs()),
            forall|id: u64|
                #[trigger] r.open_logs().contains(id) <==> (id == r.active_log() || exists|k: Seq<char>|
                    r.entries().contains_key(k) && r.entries()[k].log_id == id),
            r.is_intact(),
            r.record_bytes() == total_log_bytes(r.logs()),
            r.dead_bytes_counted(),
            self.listing().len() == 0 ==> r.log_listing() == seq![(0u64, Seq::<u8>::empty())],
            r.active_tail() == (if self.listing().len() > 0 {
                self.last_tail()
            } else {
                Seq::<u8>::empty()
            }),
            r.stored_logs() == (if self.replayed_logs().len() > 0 {
                self.replayed_logs()
            } else {
                seq![0u64]
            }),
            self.listing().len() > 0 ==> r.log_listing() == self.listing() && r.stored_logs()
                == listing_numbers(self.listing()),
    {
        let Recovery { mut index, replayed, listing, complete } = self;
        let ghost entries = index.entries();
        let mut referenced: HashSet<u64> = HashSet::new();
        let n = index.keys.len();
        let mut i: usize = 0;
        while i < n
            invariant
                index.keys_wf(),
                index.entries() == entries,
                n == index.keys@.len(),
                0 <= i <= n,
                forall|id: u64|
                    #[trigger] referenced@.contains(id) <==> exists|t: int|
                        0 <= t < i && entries[index.keys@[t]@].log_id == id,
            decreases n - i,
        {
            let id = match index.slots.get(index.keys[i].as_str()) {
                Some(slot) => slot.entry.log_id,
                None => {
                    proof {
                        assert(false);
                    }
                    0
                },
            };
            assert(entries.contains_key(index.keys@[i as int]@));
            assert(id == entries[index.keys@[i as int]@].log_id);
            referenced.insert(id);
            i = i + 1;
            proof {
                assert forall|x: u64| #[trigger] referenced@.contains(x) <==> exists|t: int|
                    0 <= t < i && entries[index.keys@[t]@].log_id == x by {
                    if x == id {
                        assert(entries[index.keys@[i - 1]@].log_id == x);
                    }
                }
            }
        }
        proof {
            assert forall|id: u64| #[trigger] referenced@.contains(id) <==> exists|k: Seq<char>|
                entries.contains_key(k) && entries[k].log_id == id by {
                if referenced@.contains(id) {
                    let t = choose|t: int| 0 <= t < n && entries[index.keys@[t]@].log_id == id;
                    assert(entries.contains_key(index.keys@[t]@));
                }
                if exists|k: Seq<char>| entries.contains_key(k) && entries[k].log_id == id {
                    let k = choose|k: Seq<char>| entries.contains_key(k) && entries[k].log_id == id;
                    let p = index.slots@[k].position as int;
                    assert(index.keys@[p]@ == k);
                }
            }
        }
        let current = index.current_log_id;
        let mut readers: Vec<u64> = Vec::new();
        let m = replayed.len();
        let mut j: usize = 0;
        while j < m
            invariant
                m == replayed@.len(),
                0 <= j <= m,
                strictly_increasing(replayed@),
                strictly_increasing(readers@),
                forall|t: int|
                    #![trigger readers@[t]]
                    0 <= t < readers@.len() ==> exists|u: int|
                        0 <= u < j && readers@[t] == replayed@[u],
                forall|id: u64|
                    #[trigger] readers@.contains(id) <==> (exists|u: int| 0 <= u < j && replayed@[u] == id)
                        && (id == current || referenced@.contains(id)),
            decreases m - j,
        {
            let id = replayed[j];
            let ghost before = readers@;
            let keep = id == current || referenced.contains(&id);
            if keep {
                proof {
                    assert forall|t: int| 0 <= t < before.len() implies before[t] < id by {
                        let u = choose|u: int| 0 <= u < j && before[t] == replayed@[u];
                    }
                }
                readers.push(id);
            }
            proof {
                assert forall|t: int|
                    #![trigger readers@[t]]
                    0 <= t < readers@.len() implies exists|u: int|
                        0 <= u < j + 1 && readers@[t] == replayed@[u] by {
                    if t < before.len() {
                        assert(readers@[t] == before[t]);
                        let u = choose|u: int| 0 <= u < j && before[t] == replayed@[u];
                    } else {
                        assert(readers@[t] == replayed@[j as int]);
                    }
                }
                assert forall|id2: u64| #[trigger] readers@.contains(id2) <==> (exists|u: int|
                    0 <= u < j + 1 && replayed@[u] == id2) && (id2 == current || referenced@.contains(id2)) by {
                    if readers@.contains(id2) {
                        let t = choose|t: int| 0 <= t < readers@.len() && readers@[t] == id2;
                        if t < before.len() {
                            assert(before[t] == id2);
                            assert(before.contains(id2));
                            let u = choose|u: int| 0 <= u < j && replayed@[u] == id2;
                            assert(0 <= u < j + 1 && replayed@[u] == id2);
                        } else {
                            assert(replayed@[j as int] == id2);
                        }
                    }
                    if (exists|u: int| 0 <= u < j + 1 && replayed@[u] == id2) && (id2 == current
                        || referenced@.contains(id2)) {
                        let u = choose|u: int| 0 <= u < j + 1 && replayed@[u] == id2;
                        if u < j {
                            assert(exists|u2: int| 0 <= u2 < j && replayed@[u2] == id2);
                            assert(before.contains(id2));
                            let t = choose|t: int| 0 <= t < before.len() && before[t] == id2;
                            assert(readers@[t] == id2);
                        } else {
                            assert(readers@[readers@.len() - 1] == id2);
                        }
                    }
                }
            }
            j = j + 1;
        }
        if m == 0 {
            readers.push(0);
        }
        index.readers = readers;
        index.stored = if m > 0 {
            replayed
        } else {
            vec![0u64]
        };
        proof {
            if m > 0 {
                assert(replayed@[m - 1] == current);
                assert(index.readers@.contains(current));
                let t = choose|t: int| 0 <= t < index.readers@.len() && index.readers@[t] == current;
                if t < index.readers@.len() - 1 {
                    let last = index.readers@[index.readers@.len() - 1];
                    let u = choose|u: int| 0 <= u < m && last == replayed@[u];
                    assert(false);
                }
            } else {
                if readers@.len() > 0 {
                    assert(readers@.contains(readers@[0]));
                }
                assert(index.readers@ =~= seq![0u64]);
                assert(entries =~= Map::empty()) by {
                    assert forall|k: Seq<char>| !entries.contains_key(k) by {
                        if entries.contains_key(k) {
                            assert(replayed@.contains(index.slots@[k].entry.log_id));
                        }
                    }
                }
            }
            assert forall|k: Seq<char>|
                #![trigger index.slots@[k]]
                index.slots@.contains_key(k) implies index.readers@.contains(
                index.slots@[k].entry.log_id,
            ) by {
                assert(entries.contains_key(k));
                assert(entries[k] == index.slots@[k].entry);
                assert(referenced@.contains(index.slots@[k].entry.log_id));
                let x = index.slots@[k].entry.log_id;
                assert(replayed@.contains(x));
            }
        }
        proof {
            let l = listing@;
            if l.len() == 0 {
                index.history@ = Seq::empty().push(LogContents { id: 0, records: Seq::empty(), tail: Seq::empty() });
                index.intact@ = true;
                assert(index.history@.drop_last() =~= Seq::<LogContents>::empty());
                assert(entries =~= Map::empty()) by {
                    assert forall|k: Seq<char>| !entries.contains_key(k) by {
                        if entries.contains_key(k) {
                            assert(replayed@.contains(index.slots@[k].entry.log_id));
                        }
                    }
                }
                assert(index.model().entries =~= KvModel::empty().entries);
                assert(index.model().contents =~= KvModel::empty().contents);
                assert(index.model().records =~= KvModel::empty().records);
                assert(replayed@.len() == 0);
                assert(index.current_log_id == 0);
                assert(index.active_len == 0);
                assert(replay_history(Seq::<LogContents>::empty()) == KvModel::empty());
                assert(replay_history(index.history@) == KvModel::empty());
                assert(index.model() == KvModel::empty());
                assert(log_bytes(Seq::<LoggedRecord>::empty()).len() == 0);
                assert(index.key_order() =~= Seq::<Seq<char>>::empty()) by {
                    if index.keys@.len() > 0 {
                        assert(index.slots@.contains_key(index.keys@[0]@));
                        assert(entries.contains_key(index.keys@[0]@));
                    }
                }
                assert(total_log_bytes(Seq::<LogContents>::empty()) == 0);
                assert(total_log_bytes(index.history@) == 0);
            } else {
                let h = index.history@;
                lemma_history_matches_listing(h, l);
                if index.intact@ {
                    assert(h.last() == h[h.len() - 1]);
                    assert(l.last() == l[l.len() - 1]);
                    assert(log_file(h[h.len() - 1]) == l[l.len() - 1].1);
                    assert(h.len() > 0);
                    assert(h.last().id == index.current_log_id);
                    assert(log_file(h.last()).len() == index.active_len);
                    assert(replay_history(h) == index.model());
                }
            }
            if l.len() == 0 {
                assert(index.history@[0].id == 0);
                assert(index.stored@ =~= seq![0u64]);
            } else if index.intact@ {
                let h = index.history@;
                assert forall|i: int| 0 <= i < h.len() implies #[trigger] h[i].id == index.stored@[i] by {
                    assert(h[i].id == l[i].0);
                    assert(listing_numbers(l)[i] == l[i].0);
                }
            }
            assert(index.stored_wf());
            index.record_bytes@ = total_log_bytes(index.history@);
            index.counted@ = true;
            assert(index.keys_wf());
            assert(index.readers_wf());
            assert(index.model().consistent());
            assert(index.history_wf());
        }
        index
    }
}


/// A record lying in a log, with the command it holds.
pub struct LoggedRecord {
    pub bytes: Seq<u8>,
    pub command: CommandView,
}

/// A log: its number, its records, one after the other, and the bytes
/// after them that reading on open ignores.
pub struct LogContents {
    pub id: u64,
    pub records: Seq<LoggedRecord>,
    pub tail: Seq<u8>,
}

/// The bytes of the log file `l`.
pub open spec fn log_file(l: LogContents) -> Seq<u8> {
    log_bytes(l.records) + l.tail
}

/// `t` is empty, or reading a record from it runs out of bytes (or finds a
/// string too long for the replay scratch buffer), so that reading on open
/// stops there.
pub open spec fn ignored_tail(t: Seq<u8>) -> bool {
    t.len() == 0 || postcard_read(t, REPLAY_SCRATCH as nat) == ReadOutcome::UnexpectedEnd
}

/// The state that reading logs on open rebuilds, whether or not some log
/// ended early; `None` where a record was refused.
pub open spec fn rebuilt(r: LogReplay) -> Option<KvModel> {
    match r {
        LogReplay::Complete(m) => Some(m),
        LogReplay::Truncated(m) => Some(m),
        LogReplay::Failed => None,
    }
}

/// The bytes of a log made of `records`.
pub open spec fn log_bytes(records: Seq<LoggedRecord>) -> Seq<u8>
    decreases records.len(),
{
    if records.len() == 0 {
        Seq::empty()
    } else {
        log_bytes(records.drop_last()) + records.last().bytes
    }
}

/// `r` is read back, on open, as its command.
pub open spec fn replayable(r: LoggedRecord) -> bool {
    &&& stored_record(r.bytes, r.command)
    &&& r.command.longest_string() <= REPLAY_SCRATCH
}

/// Following the records of log `id`, in order, from the state `m`.
pub open spec fn replay_records(m: KvModel, id: u64, records: Seq<LoggedRecord>) -> KvModel
    decreases records.len(),
{
    if records.len() == 0 {
        m
    } else {
        let prev = records.drop_last();
        replay_records(m, id, prev).apply(
            records.last().command,
            id,
            log_bytes(prev).len() as u64,
            records.last().bytes,
        )
    }
}

/// Following the records of `logs`, log after log, from the empty state.
pub open spec fn replay_history(logs: Seq<LogContents>) -> KvModel
    decreases logs.len(),
{
    if logs.len() == 0 {
        KvModel::empty()
    } else {
        replay_records(replay_history(logs.drop_last()), logs.last().id, logs.last().records)
    }
}

/// Reading the logs `listing` (numbers and bytes), in order, from the
/// state `m`, as recovery does on open.
pub open spec fn replay_listing(m: KvModel, listing: Seq<(u64, Seq<u8>)>) -> LogReplay
    decreases listing.len(),
{
    if listing.len() == 0 {
        LogReplay::Complete(m)
    } else {
        match replay_listing(m, listing.drop_last()) {
            LogReplay::Complete(m2) => replay_log_from(m2, listing.last().0, listing.last().1, 0),
            LogReplay::Truncated(m2) => match replay_log_from(m2, listing.last().0, listing.last().1, 0) {
                LogReplay::Complete(m3) => LogReplay::Truncated(m3),
                LogReplay::Truncated(m3) => LogReplay::Truncated(m3),
                LogReplay::Failed => LogReplay::Failed,
            },
            LogReplay::Failed => LogReplay::Failed,
        }
    }
}

/// The numbers and bytes of `logs`.
pub open spec fn listing_of(logs: Seq<LogContents>) -> Seq<(u64, Seq<u8>)> {
    logs.map_values(|l: LogContents| (l.id, log_file(l)))
}

/// The size of the records of `logs` together (the bytes after a log's
/// records, which reading ignores, are not counted).
pub open spec fn total_log_bytes(logs: Seq<LogContents>) -> int
    decreases logs.len(),
{
    if logs.len() == 0 {
        0
    } else {
        total_log_bytes(logs.drop_last()) + log_bytes(logs.last().records).len()
    }
}

/// The numbers of the logs of `listing`, in order.
pub open spec fn listing_numbers(listing: Seq<(u64, Seq<u8>)>) -> Seq<u64> {
    listing.map_values(|x: (u64, Seq<u8>)| x.0)
}

/// Adding to a count that saturates twice is adding once.
proof fn lemma_saturate_add(d: int, g: int)
    requires
        d >= 0,
        g >= 0,
    ensures
        saturate(saturate(d) + g) == saturate(d + g),
{
}

proof fn lemma_log_bytes_concat(a: Seq<LoggedRecord>, b: Seq<LoggedRecord>)
    ensures
        log_bytes(a + b) == log_bytes(a) + log_bytes(b),
    decreases b.len(),
{
    if b.len() == 0 {
        assert(a + b =~= a);
        assert(log_bytes(a) + Seq::<u8>::empty() =~= log_bytes(a));
    } else {
        assert((a + b).drop_last() =~= a + b.drop_last());
        assert((a + b).last() == b.last());
        lemma_log_bytes_concat(a, b.drop_last());
        assert(log_bytes(a) + log_bytes(b.drop_last()) + b.last().bytes =~= log_bytes(a) + (log_bytes(
            b.drop_last(),
        ) + b.last().bytes));
    }
}

proof fn lemma_log_bytes_prefix(records: Seq<LoggedRecord>, k: int)
    requires
        0 <= k < records.len(),
    ensures
        log_bytes(records) == log_bytes(records.take(k)) + records[k].bytes + log_bytes(
            records.skip(k + 1),
        ),
        log_bytes(records.take(k + 1)) == log_bytes(records.take(k)) + records[k].bytes,
{
    assert(records =~= records.take(k + 1) + records.skip(k + 1));
    lemma_log_bytes_concat(records.take(k + 1), records.skip(k + 1));
    assert(records.take(k + 1).drop_last() =~= records.take(k));
}

/// Reading the bytes of a log made of replayable records, from the start of
/// the `k`-th record, ends where following the records ends.
proof fn lemma_replay_log_bytes_from(
    m: KvModel,
    id: u64,
    records: Seq<LoggedRecord>,
    tail: Seq<u8>,
    k: int,
)
    requires
        0 <= k <= records.len(),
        forall|j: int| 0 <= j < records.len() ==> replayable(#[trigger] records[j]),
        ignored_tail(tail),
        log_bytes(records).len() + tail.len() <= u64::MAX,
    ensures
        replay_log_from(
            replay_records(m, id, records.take(k)),
            id,
            log_bytes(records) + tail,
            log_bytes(records.take(k)).len(),
        ) == (if tail.len() == 0 {
            LogReplay::Complete(replay_records(m, id, records))
        } else {
            LogReplay::Truncated(replay_records(m, id, records))
        }),
    decreases records.len() - k,
{
    let bytes = log_bytes(records) + tail;
    if k == records.len() {
        assert(records.take(k) =~= records);
        if tail.len() > 0 {
            let pos = log_bytes(records).len();
            assert(bytes.subrange(pos as int, bytes.len() as int) =~= tail);
        }
    } else {
        lemma_log_bytes_prefix(records, k);
        let r = records[k];
        assert(replayable(r));
        let pos = log_bytes(records.take(k)).len();
        let rest = log_bytes(records.skip(k + 1)) + tail;
        assert(bytes.subrange(pos as int, bytes.len() as int) =~= r.bytes + rest);
        assert(postcard_read(r.bytes + rest, REPLAY_SCRATCH as nat) == ReadOutcome::Decoded(
            r.command,
            r.bytes.len(),
        ));
        assert(bytes.subrange(pos as int, (pos + r.bytes.len()) as int) =~= r.bytes);
        assert(records.take(k + 1).drop_last() =~= records.take(k));
        assert(records.take(k + 1).last() == r);
        assert(replay_records(m, id, records.take(k + 1)) == replay_records(
            m,
            id,
            records.take(k),
        ).apply(r.command, id, pos as u64, r.bytes));
        lemma_replay_log_bytes_from(m, id, records, tail, k + 1);
    }
}

/// Any records, one after the other, that each read back as their command
/// are read back, on open, as those commands in order; bytes after them
/// that reading ignores end the log early, and leave the state as the
/// records left it.
pub proof fn lemma_replay_log_bytes(m: KvModel, id: u64, records: Seq<LoggedRecord>, tail: Seq<u8>)
    requires
        forall|j: int| 0 <= j < records.len() ==> replayable(#[trigger] records[j]),
        ignored_tail(tail),
        log_bytes(records).len() + tail.len() <= u64::MAX,
    ensures
        replay_log_from(m, id, log_bytes(records) + tail, 0) == (if tail.len() == 0 {
            LogReplay::Complete(replay_records(m, id, records))
        } else {
            LogReplay::Truncated(replay_records(m, id, records))
        }),
{
    lemma_replay_log_bytes_from(m, id, records, tail, 0);
    assert(records.take(0) =~= Seq::<LoggedRecord>::empty());
}

/// Reading the bytes of logs made of replayable records, each followed by
/// bytes that reading ignores, rebuilds the state that following their
/// records gives.
proof fn lemma_replay_listing_of_history(logs: Seq<LogContents>)
    requires
        forall|i: int, j: int|
            0 <= i < logs.len() && 0 <= j < logs[i].records.len() ==> replayable(
                #[trigger] logs[i].records[j],
            ),
        forall|i: int|
            0 <= i < logs.len() ==> log_file(#[trigger] logs[i]).len() <= u64::MAX && ignored_tail(
                logs[i].tail,
            ),
    ensures
        rebuilt(replay_listing(KvModel::empty(), listing_of(logs))) == Some(replay_history(logs)),
    decreases logs.len(),
{
    if logs.len() > 0 {
        let prev = logs.drop_last();
        assert forall|i: int, j: int|
            0 <= i < prev.len() && 0 <= j < prev[i].records.len() implies replayable(
            #[trigger] prev[i].records[j],
        ) by {
            assert(prev[i] == logs[i]);
        }
        assert forall|i: int| 0 <= i < prev.len() implies log_file(#[trigger] prev[i]).len()
            <= u64::MAX && ignored_tail(prev[i].tail) by {
            assert(prev[i] == logs[i]);
        }
        lemma_replay_listing_of_history(prev);
        assert(listing_of(logs).drop_last() =~= listing_of(prev));
        let last = logs.last();
        assert(logs[logs.len() - 1] == last);
        assert forall|j: int| 0 <= j < last.records.len() implies replayable(
            #[trigger] last.records[j],
        ) by {
            assert(logs[logs.len() - 1].records[j] == last.records[j]);
        }
        lemma_replay_log_bytes(replay_history(prev), last.id, last.records, last.tail);
        assert(listing_of(logs).last() == (last.id, log_file(last)));
    }
}

/// The records of a compaction log: the latest record of each key of
/// `order`, in that order.
pub open spec fn compaction_records(m: KvModel, order: Seq<Seq<char>>) -> Seq<LoggedRecord> {
    order.map_values(
        |k: Seq<char>|
            LoggedRecord {
                bytes: m.records[k],
                command: CommandView::Put { key: k, value: m.contents[k] },
            },
    )
}

/// The state after following the records of the first `i` keys of a
/// compaction log.
spec fn compaction_prefix_model(m: KvModel, order: Seq<Seq<char>>, log: u64, i: int) -> KvModel {
    let pre = order.take(i);
    KvModel {
        entries: Map::new(
            |k: Seq<char>| pre.contains(k),
            |k: Seq<char>|
                IndexEntry {
                    log_id: log,
                    value_position: layout_offset(m.entries, order, order.index_of(k)) as u64,
                    value_size: m.entries[k].value_size,
                },
        ),
        contents: Map::new(|k: Seq<char>| pre.contains(k), |k: Seq<char>| m.contents[k]),
        records: Map::new(|k: Seq<char>| pre.contains(k), |k: Seq<char>| m.records[k]),
        uncompacted: 0,
    }
}

proof fn lemma_replay_compaction_prefix(m: KvModel, order: Seq<Seq<char>>, log: u64, i: int)
    requires
        m.consistent(),
        order.no_duplicates(),
        order.to_set() == m.entries.dom(),
        0 <= i <= order.len(),
    ensures
        replay_records(KvModel::empty(), log, compaction_records(m, order).take(i))
            == compaction_prefix_model(m, order, log, i),
        log_bytes(compaction_records(m, order).take(i)).len() == layout_offset(m.entries, order, i),
    decreases i,
{
    let recs = compaction_records(m, order);
    if i == 0 {
        assert(recs.take(0) =~= Seq::<LoggedRecord>::empty());
        let pm = compaction_prefix_model(m, order, log, 0);
        assert(pm.entries =~= Map::empty());
        assert(pm.contents =~= Map::empty());
        assert(pm.records =~= Map::empty());
    } else {
        lemma_replay_compaction_prefix(m, order, log, i - 1);
        let k = order[i - 1];
        assert(order.to_set().contains(k));
        assert(m.entries.contains_key(k));
        assert(recs.take(i).drop_last() =~= recs.take(i - 1));
        assert(recs.take(i).last() == recs[i - 1]);
        let prev = compaction_prefix_model(m, order, log, i - 1);
        let next = compaction_prefix_model(m, order, log, i);
        assert(!order.take(i - 1).contains(k)) by {
            if order.take(i - 1).contains(k) {
                let t = choose|t: int| 0 <= t < i - 1 && #[trigger] order.take(i - 1)[t] == k;
                assert(order[t] == order[i - 1]);
            }
        }
        assert(order.index_of(k) == i - 1) by {
            assert(order.contains(k));
            let q = order.index_of(k);
            assert(order[q] == k);
        }
        assert forall|x: Seq<char>| #[trigger] order.take(i).contains(x) <==> (order.take(i - 1).contains(x)
            || x == k) by {
            if order.take(i).contains(x) {
                let t = choose|t: int| 0 <= t < i && #[trigger] order.take(i)[t] == x;
                if t < i - 1 {
                    assert(order.take(i - 1)[t] == x);
                }
            }
            if order.take(i - 1).contains(x) {
                let t = choose|t: int| 0 <= t < i - 1 && #[trigger] order.take(i - 1)[t] == x;
                assert(order.take(i)[t] == x);
            }
            if x == k {
                assert(order.take(i)[i - 1] == x);
            }
        }
        let applied = prev.apply(
            CommandView::Put { key: k, value: m.contents[k] },
            log,
            layout_offset(m.entries, order, i - 1) as u64,
            m.records[k],
        );
        assert(applied.entries =~= next.entries);
        assert(applied.contents =~= next.contents);
        assert(applied.records =~= next.records);
    }
}

proof fn lemma_replay_compaction(m: KvModel, order: Seq<Seq<char>>, log: u64)
    requires
        m.consistent(),
        order.no_duplicates(),
        order.to_set() == m.entries.dom(),
    ensures
        replay_records(KvModel::empty(), log, compaction_records(m, order)) == (KvModel {
            entries: compacted_entries(m.entries, order, log),
            contents: m.contents,
            records: m.records,
            uncompacted: 0,
        }),
        log_bytes(compaction_records(m, order)).len() == layout_offset(
            m.entries,
            order,
            order.len() as int,
        ),
        forall|j: int|
            0 <= j < order.len() ==> #[trigger] compaction_records(m, order)[j] == (LoggedRecord {
                bytes: m.records[order[j]],
                command: CommandView::Put { key: order[j], value: m.contents[order[j]] },
            }),
{
    let n = order.len() as int;
    lemma_replay_compaction_prefix(m, order, log, n);
    let recs = compaction_records(m, order);
    assert(recs.take(n) =~= recs);
    assert(order.take(n) =~= order);
    let pm = compaction_prefix_model(m, order, log, n);
    assert forall|k: Seq<char>| #[trigger] order.contains(k) <==> m.entries.contains_key(k) by {
        assert(order.to_set().contains(k) == order.contains(k));
    }
    assert(pm.entries =~= compacted_entries(m.entries, order, log));
    assert(pm.contents =~= m.contents);
    assert(pm.records =~= m.records);
}

/// A live key's latest record, read back with a scratch buffer of the size
/// its entry gives, holds the key and its current value.
pub proof fn lemma_record_reads_back(s: KvIndex, key: Seq<char>)
    requires
        s.wf(),
        s@.contains_key(key),
    ensures
        s.entries().contains_key(key),
        s.model().records.contains_key(key),
        postcard_read(s.model().records[key], s.entries()[key].value_size as usize as nat)
            == ReadOutcome::Decoded(
            CommandView::Put { key, value: s@[key] },
            s.entries()[key].value_size as nat,
        ),
{
    let m = s.model();
    assert(m.entries.contains_key(key));
    let rec = m.records[key];
    let c = CommandView::Put { key, value: m.contents[key] };
    assert(m.entries[key].value_size == rec.len());
    assert(stored_record(rec, c));
    assert(rec + Seq::<u8>::empty() =~= rec);
    assert(postcard_read(rec + Seq::<u8>::empty(), m.entries[key].value_size as usize as nat)
        == ReadOutcome::Decoded(c, rec.len()));
}

/// What the index holds survives a reopen: reading its logs back in order,
/// as open does, rebuilds the same state (entries, values, records and dead
/// bytes), with the last log as the active one; a log that ended early on
/// the last open ends at the same place again. The logs' numbers increase,
/// as a sorted directory listing gives them, and are those of the logs in
/// the directory. This holds while the index is intact: no string written
/// since open is longer than the replay scratch buffer, and nothing was
/// appended after bytes that reading ignores.
pub proof fn lemma_reopen_restores(s: KvIndex)
    requires
        s.wf(),
        s.is_intact(),
    ensures
        rebuilt(replay_listing(KvModel::empty(), s.log_listing())) == Some(s.model()),
        s.log_listing().len() > 0,
        listing_numbers(s.log_listing()) == s.stored_logs(),
        s.log_listing().last().0 == s.active_log(),
        s.log_listing().last().1.len() == s.active_size(),
        forall|i: int, j: int|
            0 <= i < j < s.log_listing().len() ==> s.log_listing()[i].0 < s.log_listing()[j].0,
{
    let h = s.history@;
    lemma_replay_listing_of_history(h);
    assert(s.log_listing().last() == (h.last().id, log_file(h.last())));
}

/// A value written is read back: once the record that sets `key` to `value`
/// is committed at the end of the active log, the index points `key` at
/// that record, and the record, read back with a scratch buffer of its
/// size, sets `key` to `value` (so [`KvIndex::value_from_record`] gives
/// `value`).
pub proof fn lemma_read_after_write(
    before: KvIndex,
    after: KvIndex,
    key: Seq<char>,
    value: Seq<char>,
    record: Seq<u8>,
)
    requires
        after.wf(),
        after.model() == before.model().apply(
            CommandView::Put { key, value },
            before.active_log(),
            before.active_size(),
            record,
        ),
    ensures
        after@.contains_key(key),
        after@[key] == value,
        after.entries()[key] == (IndexEntry {
            log_id: before.active_log(),
            value_position: before.active_size(),
            value_size: record.len() as u64,
        }),
        after.model().records[key] == record,
        postcard_read(record, record.len() as u64 as usize as nat) == ReadOutcome::Decoded(
            CommandView::Put { key, value },
            record.len() as u64 as nat,
        ),
{
    assert(after.model().contents.contains_key(key));
    lemma_record_reads_back(after, key);
}

/// Every live key's record lies in a log that is open for reading, so a
/// lookup never misses its reader.
pub proof fn lemma_entries_in_open_logs(s: KvIndex, key: Seq<char>)
    requires
        s.wf(),
        s@.contains_key(key),
    ensures
        s.entries().contains_key(key),
        s.open_logs().contains(s.entries()[key].log_id),
{
    assert(s.model().contents.dom() == s.model().entries.dom());
    assert(s.slots@.contains_key(key));
}

/// The index's view is the values of its state, and its entries are the
/// state's entries.
pub proof fn lemma_view_is_model(s: KvIndex)
    ensures
        s@ == s.model().contents,
        s.entries() == s.model().entries,
{
}

/// The logs stay bounded under overwrites: after a value is set while at
/// most [`COMPACTION_THRESHOLD`] dead bytes are counted (as
/// [`KvIndex::maintenance`] leaves it, compacting above that), the records
/// in the logs take up at most the live records, the threshold, and the
/// record that the write replaced. This holds unless a key was dropped
/// without its removal being written, while the count of dead bytes stays
/// below `u64::MAX`.
pub proof fn lemma_logs_bounded_after_set(
    before: KvIndex,
    after: KvIndex,
    key: Seq<char>,
    value: Seq<char>,
    record: Seq<u8>,
)
    requires
        before.wf(),
        before.model().uncompacted <= COMPACTION_THRESHOLD,
        after.wf(),
        after.dead_bytes_counted(),
        after.model().uncompacted < u64::MAX,
        after.model() == before.model().apply(
            CommandView::Put { key, value },
            before.active_log(),
            before.active_size(),
            record,
        ),
    ensures
        after.record_bytes() <= live_bytes(after.entries(), after.key_order())
            + COMPACTION_THRESHOLD + (if before.entries().contains_key(key) {
            before.entries()[key].value_size as int
        } else {
            0
        }),
{
    lemma_uncompacted_counts_dead_bytes(after);
}

/// Every record that reading on open follows takes at least two bytes (its
/// kind and the length of its key), so a log of `b` bytes holds at most
/// `b / 2` records.
pub proof fn lemma_records_fill_their_log(records: Seq<LoggedRecord>)
    requires
        forall|j: int| 0 <= j < records.len() ==> replayable(#[trigger] records[j]),
    ensures
        2 * records.len() <= log_bytes(records).len(),
    decreases records.len(),
{
    if records.len() > 0 {
        let prev = records.drop_last();
        assert forall|j: int| 0 <= j < prev.len() implies replayable(#[trigger] prev[j]) by {
            assert(prev[j] == records[j]);
        }
        lemma_records_fill_their_log(prev);
        assert(replayable(records[records.len() - 1]));
    }
}

/// The dead bytes that the index counts are the bytes of the records in
/// its logs that are not the latest record of a live key: every record
/// written less the latest record of each live key (each counted once), up
/// to `u64::MAX`. This holds unless a key was dropped without its removal
/// being written; while the index is intact, those records are the records
/// of its logs.
pub proof fn lemma_uncompacted_counts_dead_bytes(s: KvIndex)
    requires
        s.wf(),
        s.dead_bytes_counted(),
    ensures
        s.key_order().no_duplicates(),
        s.key_order().to_set() == s.entries().dom(),
        live_bytes(s.entries(), s.key_order()) <= s.record_bytes(),
        s.model().uncompacted == saturate(s.record_bytes() - live_bytes(s.entries(), s.key_order())),
        s.is_intact() ==> s.record_bytes() == total_log_bytes(s.logs()),
{
    s.lemma_wf_facts();
}

} // verus!
