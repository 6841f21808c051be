//! The topic store the handlers act on: one log of records per topic, held
//! in memory.
//!
//! A record's offset is assigned when it is appended: the next offset of its
//! topic, which is one more than the highest offset in the log, or 0 for an
//! empty log. On a compacted topic a record whose key the log already holds
//! replaces the value and the timestamp of the record with that key, in place.

use vstd::pervasive::VecAdditionalExecFns;
use vstd::prelude::*;
use vstd::slice::slice_to_vec;

verus! {

/// One record of a topic.
#[derive(Debug)]
pub struct Record {
    /// The offset of the record in its topic.
    pub id: u64,
    pub partition: u32,
    /// When the record was written, in milliseconds.
    pub timestamp: u64,
    pub key: Option<Vec<u8>>,
    pub value: Option<Vec<u8>>,
}

/// What a `Record` says.
pub struct Stored {
    pub id: u64,
    pub partition: u32,
    pub timestamp: u64,
    pub key: Option<Seq<u8>>,
    pub value: Option<Seq<u8>>,
}

impl DeepView for Record {
    type V = Stored;

    open spec fn deep_view(&self) -> Stored {
        Stored {
            id: self.id,
            partition: self.partition,
            timestamp: self.timestamp,
            key: self.key.deep_view(),
            value: self.value.deep_view(),
        }
    }
}

/// The log of one topic.
#[derive(Debug)]
struct TopicLog {
    name: String,
    records: Vec<Record>,
}

/// What the log of one topic says: its name and its records, oldest first.
pub struct LogModel {
    pub name: Seq<char>,
    pub records: Seq<Stored>,
}

impl DeepView for TopicLog {
    type V = LogModel;

    closed spec fn deep_view(&self) -> LogModel {
        LogModel { name: self.name@, records: self.records.deep_view() }
    }
}

/// Why the store could not do what was asked.
#[derive(Debug, Clone, Copy, PartialEq, Eq, Structural)]
pub enum StoreError {
    /// The store has no log for the topic.
    UnknownTopic,
    /// The log has used up the offsets a response can carry.
    OffsetsExhausted,
}

/// The handle through which handlers reach the store.
#[derive(Debug)]
pub struct Connection {
    logs: Vec<TopicLog>,
}

impl View for Connection {
    type V = Seq<LogModel>;

    closed spec fn view(&self) -> Seq<LogModel> {
        self.logs.deep_view()
    }
}

/// The highest offset a record can have, so that the offset after it still
/// fits the signed 64-bit field of a response.
pub open spec fn max_offset() -> int {
    0x7fff_ffff_ffff_fffe
}

/// Whether the records of a log stand in strictly increasing order of their
/// offsets, none above the highest offset.
pub open spec fn in_order(records: Seq<Stored>) -> bool {
    &&& forall|i: int, j: int| 0 <= i < j < records.len() ==> records[i].id < records[j].id
    &&& forall|i: int| 0 <= i < records.len() ==> records[i].id <= max_offset()
}

/// Whether every log of a store is in order.
pub open spec fn all_in_order(logs: Seq<LogModel>) -> bool {
    forall|i: int| 0 <= i < logs.len() ==> in_order(#[trigger] logs[i].records)
}

/// The offset the next new record of a log gets.
pub open spec fn next_offset_of(records: Seq<Stored>) -> int {
    if records.len() == 0 {
        0
    } else {
        records.last().id + 1
    }
}

/// The position of the first log with the given name; the number of logs if
/// there is none.
pub open spec fn index_of(logs: Seq<LogModel>, name: Seq<char>) -> int
    decreases logs.len(),
{
    if logs.len() == 0 {
        0
    } else if logs[0].name == name {
        0
    } else {
        1 + index_of(logs.skip(1), name)
    }
}

/// Whether the store has a log for the topic.
pub open spec fn has_topic(logs: Seq<LogModel>, name: Seq<char>) -> bool {
    index_of(logs, name) < logs.len()
}

/// The records of a topic the store has a log for.
pub open spec fn records_of(logs: Seq<LogModel>, name: Seq<char>) -> Seq<Stored>
    recommends
        has_topic(logs, name),
{
    logs[index_of(logs, name)].records
}

/// The logs with the records of one topic replaced.
pub open spec fn with_records(logs: Seq<LogModel>, name: Seq<char>, records: Seq<Stored>) -> Seq<
    LogModel,
>
    recommends
        has_topic(logs, name),
{
    logs.update(index_of(logs, name), LogModel { name: name, records: records })
}

/// The store once it is sure to have a log for the topic: a new topic gets
/// an empty log behind the others, a known one is left as it is.
pub open spec fn ensured(logs: Seq<LogModel>, name: Seq<char>) -> Seq<LogModel> {
    if has_topic(logs, name) {
        logs
    } else {
        logs.push(LogModel { name: name, records: Seq::<Stored>::empty() })
    }
}

/// Whether some record of the log has the key.
pub open spec fn holds_key(records: Seq<Stored>, key: Seq<u8>) -> bool {
    exists|i: int| 0 <= i < records.len() && (#[trigger] records[i]).key == Some(key)
}

/// Whether appending a record with this key updates the log in place.
pub open spec fn upserts(records: Seq<Stored>, key: Option<Seq<u8>>, compacted: bool) -> bool {
    compacted && key is Some && holds_key(records, key->0)
}

/// The log with the value and the timestamp of each record of the given key
/// replaced.
pub open spec fn replaced(
    records: Seq<Stored>,
    key: Seq<u8>,
    value: Option<Seq<u8>>,
    timestamp: u64,
) -> Seq<Stored> {
    Seq::new(
        records.len(),
        |i: int|
            if records[i].key == Some(key) {
                Stored {
                    id: records[i].id,
                    partition: records[i].partition,
                    timestamp: timestamp,
                    key: records[i].key,
                    value: value,
                }
            } else {
                records[i]
            },
    )
}

/// Whether the log can take one more record.
pub open spec fn has_room(records: Seq<Stored>) -> bool {
    next_offset_of(records) <= max_offset()
}

/// The log after a record is appended at time `timestamp`: on a compacted
/// topic that holds the key, the record with that key takes the new value
/// and timestamp and keeps its offset; else a new record with the next
/// offset stands at the end.
pub open spec fn appended(
    records: Seq<Stored>,
    partition: u32,
    timestamp: u64,
    key: Option<Seq<u8>>,
    value: Option<Seq<u8>>,
    compacted: bool,
) -> Seq<Stored> {
    if upserts(records, key, compacted) {
        replaced(records, key->0, value, timestamp)
    } else {
        records.push(
            Stored {
                id: next_offset_of(records) as u64,
                partition: partition,
                timestamp: timestamp,
                key: key,
                value: value,
            },
        )
    }
}

/// The records with an offset of at least `from`, in the order of the log.
pub open spec fn at_or_after(records: Seq<Stored>, from: u64) -> Seq<Stored>
    decreases records.len(),
{
    if records.len() == 0 {
        Seq::<Stored>::empty()
    } else if records.last().id >= from {
        at_or_after(records.drop_last(), from).push(records.last())
    } else {
        at_or_after(records.drop_last(), from)
    }
}

/// The first `limit` of a sequence of records, or all if there are fewer.
pub open spec fn at_most(records: Seq<Stored>, limit: nat) -> Seq<Stored> {
    if records.len() <= limit {
        records
    } else {
        records.take(limit as int)
    }
}

/// What a scan of a log gives: the first `limit` records with an offset of at
/// least `from`.
pub open spec fn scanned(records: Seq<Stored>, from: u64, limit: nat) -> Seq<Stored> {
    at_most(at_or_after(records, from), limit)
}

/// Whether a record is no older at time `now` than the retention allows.
pub open spec fn is_fresh(record: Stored, retention: u64, now: u64) -> bool {
    now - record.timestamp <= retention
}

/// The records that have not expired, in the order of the log.
pub open spec fn unexpired(records: Seq<Stored>, retention: u64, now: u64) -> Seq<Stored>
    decreases records.len(),
{
    if records.len() == 0 {
        Seq::<Stored>::empty()
    } else if is_fresh(records.last(), retention, now) {
        unexpired(records.drop_last(), retention, now).push(records.last())
    } else {
        unexpired(records.drop_last(), retention, now)
    }
}

/// What appending a record to a topic gives: the logs with the topic's
/// records replaced by the appended ones, or the reason why nothing is appended.
pub open spec fn append_outcome(
    logs: Seq<LogModel>,
    topic: Seq<char>,
    partition: u32,
    timestamp: u64,
    key: Option<Seq<u8>>,
    value: Option<Seq<u8>>,
    compacted: bool,
) -> Result<Seq<LogModel>, StoreError> {
    if !has_topic(logs, topic) {
        Err(StoreError::UnknownTopic)
    } else if !upserts(records_of(logs, topic), key, compacted) && !has_room(
        records_of(logs, topic),
    ) {
        Err(StoreError::OffsetsExhausted)
    } else {
        Ok(
            with_records(
                logs,
                topic,
                appended(records_of(logs, topic), partition, timestamp, key, value, compacted),
            ),
        )
    }
}

/// What scanning a topic gives.
pub open spec fn scan_outcome(
    logs: Seq<LogModel>,
    topic: Seq<char>,
    from: u64,
    limit: nat,
) -> Result<
    Seq<Stored>,
    StoreError,
> {
    if has_topic(logs, topic) {
        Ok(scanned(records_of(logs, topic), from, limit))
    } else {
        Err(StoreError::UnknownTopic)
    }
}

/// What asking for the next offset of a topic gives.
pub open spec fn next_offset_outcome(logs: Seq<LogModel>, topic: Seq<char>) -> Result<
    i64,
    StoreError,
> {
    if has_topic(logs, topic) {
        Ok(next_offset_of(records_of(logs, topic)) as i64)
    } else {
        Err(StoreError::UnknownTopic)
    }
}

/// What deleting the expired records of a topic gives.
pub open spec fn expire_outcome(
    logs: Seq<LogModel>,
    topic: Seq<char>,
    retention: u64,
    now: u64,
) -> Result<Seq<LogModel>, StoreError> {
    if has_topic(logs, topic) {
        Ok(with_records(logs, topic, unexpired(records_of(logs, topic), retention, now)))
    } else {
        Err(StoreError::UnknownTopic)
    }
}

/// The position of a name is that of a log with that name before which no
/// log has it, and the number of logs if no log has it.
pub proof fn lemma_index_of(logs: Seq<LogModel>, name: Seq<char>, i: int)
    requires
        0 <= i <= logs.len(),
        forall|k: int| 0 <= k < i ==> logs[k].name != name,
        i < logs.len() ==> logs[i].name == name,
    ensures
        index_of(logs, name) == i,
    decreases logs.len(),
{
    if logs.len() > 0 && i > 0 {
        let rest = logs.skip(1);
        assert forall|k: int| 0 <= k < i - 1 implies rest[k].name != name by {
            assert(rest[k] == logs[k + 1]);
        }
        lemma_index_of(rest, name, i - 1);
    }
}

/// The position of a name never lies behind the logs, and a log at it has that name.
pub proof fn lemma_index_of_bounds(logs: Seq<LogModel>, name: Seq<char>)
    ensures
        0 <= index_of(logs, name) <= logs.len(),
        has_topic(logs, name) ==> logs[index_of(logs, name)].name == name,
    decreases logs.len(),
{
    if logs.len() > 0 && logs[0].name != name {
        lemma_index_of_bounds(logs.skip(1), name);
    }
}

/// A copy of a byte array.
pub(crate) fn copy_bytes(bytes: &Vec<u8>) -> (copy: Vec<u8>)
    ensures
        copy@ == bytes@,
{
    slice_to_vec(bytes.as_slice())
}

/// A copy of an optional byte array.
pub(crate) fn copy_opt_bytes(bytes: &Option<Vec<u8>>) -> (copy: Option<Vec<u8>>)
    ensures
        copy.deep_view() == bytes.deep_view(),
{
    match bytes {
        Some(b) => {
            let c = copy_bytes(b);
            assert(c.deep_view() =~= b.deep_view());
            Some(c)
        },
        None => None,
    }
}

impl Connection {
    /// Whether every log of the store is in order.
    pub open spec fn wf(&self) -> bool {
        all_in_order(self@)
    }

    /// A store without a topic.
    pub fn new() -> (store: Connection)
        ensures
            store@ == Seq::<LogModel>::empty(),
            store.wf(),
    {
        let store = Connection { logs: Vec::new() };
        assert(store@ =~= Seq::<LogModel>::empty());
        store
    }

    /// The position of the topic's log.
    fn find(&self, topic: &String) -> (i: usize)
        ensures
            i == index_of(self@, topic@),
            i <= self.logs.len(),
            self@.len() == self.logs.len(),
            i < self.logs.len() ==> self.logs[i as int].name@ == topic@,
    {
        let mut i: usize = 0;
        while i < self.logs.len()
            invariant
                i <= self.logs.len(),
                forall|k: int| 0 <= k < i ==> self@[k].name != topic@,
            decreases self.logs.len() - i,
        {
            if self.logs[i].name == *topic {
                proof {
                    lemma_index_of(self@, topic@, i as int);
                }
                return i;
            }
            i += 1;
        }
        proof {
            lemma_index_of(self@, topic@, i as int);
        }
        i
    }

    /// Makes sure that the store has a log for the topic.
    pub fn ensure_topic(&mut self, name: &String)
        requires
            old(self).wf(),
        ensures
            final(self).wf(),
            final(self)@ == ensured(old(self)@, name@),
    {
        let i = self.find(name);
        if i == self.logs.len() {
            let log = TopicLog { name: name.clone(), records: Vec::new() };
            assert(log.records.deep_view() =~= Seq::<Stored>::empty());
            self.logs.push(log);
            assert(self@ =~= old(self)@.push(
                LogModel { name: name@, records: Seq::<Stored>::empty() },
            ));
        }
    }

    /// The offset the next new record of the topic gets: one more than the
    /// highest offset in its log, or 0 if the log is empty.
    pub fn next_offset(&self, topic: &String) -> (r: Result<i64, StoreError>)
        requires
            self.wf(),
        ensures
            match r {
                Ok(offset) => has_topic(self@, topic@) && offset == next_offset_of(
                    records_of(self@, topic@),
                ),
                Err(e) => !has_topic(self@, topic@) && e == StoreError::UnknownTopic,
            },
    {
        let i = self.find(topic);
        if i == self.logs.len() {
            return Err(StoreError::UnknownTopic);
        }
        let records = &self.logs[i].records;
        assert(self@[i as int].records == records.deep_view());
        assert(in_order(self@[i as int].records));
        if records.len() == 0 {
            Ok(0)
        } else {
            let last = &records[records.len() - 1];
            assert(records.deep_view().last() == last.deep_view());
            Ok((last.id + 1) as i64)
        }
    }
}

/// Whether two byte arrays hold the same bytes.
fn same_bytes(a: &Vec<u8>, b: &Vec<u8>) -> (same: bool)
    ensures
        same == (a@ == b@),
{
    if a.len() != b.len() {
        return false;
    }
    let mut i: usize = 0;
    while i < a.len()
        invariant
            i <= a.len(),
            a.len() == b.len(),
            forall|k: int| 0 <= k < i ==> a@[k] == b@[k],
        decreases a.len() - i,
    {
        if a[i] != b[i] {
            return false;
        }
        i += 1;
    }
    assert(a@ =~= b@);
    true
}

/// Whether a record has the key.
fn has_key(record: &Record, key: &Vec<u8>) -> (has: bool)
    ensures
        has == (record.deep_view().key == Some(key@)),
{
    match &record.key {
        Some(k) => {
            assert(k.deep_view() =~= k@);
            same_bytes(k, key)
        },
        None => false,
    }
}

/// Every record that is kept when the expired ones leave was in the log, and
/// the kept records stand in the order they had.
pub proof fn lemma_unexpired_in_order(records: Seq<Stored>, retention: u64, now: u64)
    requires
        in_order(records),
    ensures
        in_order(unexpired(records, retention, now)),
        unexpired(records, retention, now).len() <= records.len(),
        forall|i: int|
            0 <= i < unexpired(records, retention, now).len() ==> records.contains(#[trigger] unexpired(records, retention, now)[i]),
        unexpired(records, retention, now).len() > 0 ==> unexpired(
            records,
            retention,
            now,
        ).last().id <= records.last().id,
    decreases records.len(),
{
    if records.len() > 0 {
        let front = records.drop_last();
        lemma_unexpired_in_order(front, retention, now);
        let kept = unexpired(front, retention, now);
        assert forall|i: int| 0 <= i < kept.len() implies records.contains(#[trigger] kept[i])
            && kept[i].id < records.last().id by {
            assert(front.contains(kept[i]));
            let k = choose|k: int| 0 <= k < front.len() && front[k] == kept[i];
            assert(records[k] == kept[i]);
        }
        if is_fresh(records.last(), retention, now) {
            let all = kept.push(records.last());
            assert(all == unexpired(records, retention, now));
            assert(records[records.len() - 1] == records.last());
            assert forall|i: int| 0 <= i < all.len() implies records.contains(#[trigger] all[i]) by {
                if i < kept.len() {
                    assert(all[i] == kept[i]);
                }
            }
        }
    }
}

/// A copy of a record.
fn copy_record(record: &Record) -> (copy: Record)
    ensures
        copy.deep_view() == record.deep_view(),
{
    Record {
        id: record.id,
        partition: record.partition,
        timestamp: record.timestamp,
        key: copy_opt_bytes(&record.key),
        value: copy_opt_bytes(&record.value),
    }
}

/// Gives every record of the key the new value and timestamp; says whether
/// there was one.
#[verifier::rlimit(40)]
fn replace_by_key(
    records: &mut Vec<Record>,
    key: &Vec<u8>,
    value: &Option<Vec<u8>>,
    now: u64,
) -> (found: bool)
    ensures
        found == holds_key(old(records).deep_view(), key@),
        final(records).deep_view() == replaced(
            old(records).deep_view(),
            key@,
            value.deep_view(),
            now,
        ),
        !found ==> final(records).deep_view() == old(records).deep_view(),
{
    let ghost before = records.deep_view();
    let mut found = false;
    let mut k: usize = 0;
    while k < records.len()
        invariant
            k <= records.len(),
            records.len() == before.len(),
            found == exists|j: int| 0 <= j < k && (#[trigger] before[j]).key == Some(key@),
            forall|j: int|
                0 <= j < k ==> (#[trigger] records.deep_view()[j]) == replaced(
                    before,
                    key@,
                    value.deep_view(),
                    now,
                )[j],
            forall|j: int| k <= j < before.len() ==> (#[trigger] records.deep_view()[j]) == before[j],
            !found ==> records.deep_view() == before,
        decreases records.len() - k,
    {
        let ghost current = records.deep_view();
        if has_key(&records[k], key) {
            let fresh = Record {
                id: records[k].id,
                partition: records[k].partition,
                timestamp: now,
                key: copy_opt_bytes(&records[k].key),
                value: copy_opt_bytes(value),
            };
            records.set(k, fresh);
            assert(before[k as int].key == Some(key@));
            found = true;
            assert forall|j: int| 0 <= j < records.len() && j != k implies
                (#[trigger] records.deep_view()[j]) == current[j] by {}
        } else {
            assert(before[k as int].key != Some(key@));
            assert(replaced(before, key@, value.deep_view(), now)[k as int] == before[k as int]);
        }
        k += 1;
    }
    assert(records.deep_view() =~= replaced(before, key@, value.deep_view(), now));
    found
}

impl Connection {
    /// Appends a record to a topic at time `now`. On a compacted topic a
    /// record whose key the log holds replaces the value and the timestamp
    /// of the record with that key; any other record gets the next offset.
    #[verifier::rlimit(40)]
    pub fn append(
        &mut self,
        topic: &String,
        partition: u32,
        key: Option<Vec<u8>>,
        value: Option<Vec<u8>>,
        compacted: bool,
        now: u64,
    ) -> (r: Result<(), StoreError>)
        requires
            old(self).wf(),
        ensures
            final(self).wf(),
            match r {
                Ok(_) => append_outcome(
                    old(self)@,
                    topic@,
                    partition,
                    now,
                    key.deep_view(),
                    value.deep_view(),
                    compacted,
                ) == Ok::<Seq<LogModel>, StoreError>(final(self)@),
                Err(e) => final(self)@ == old(self)@ && append_outcome(
                    old(self)@,
                    topic@,
                    partition,
                    now,
                    key.deep_view(),
                    value.deep_view(),
                    compacted,
                ) == Err::<Seq<LogModel>, StoreError>(e),
            },
    {
        let i = self.find(topic);
        if i == self.logs.len() {
            return Err(StoreError::UnknownTopic);
        }
        let ghost before = self@;
        let ghost records = before[i as int].records;
        assert(in_order(records));
        let mut log = TopicLog { name: String::new(), records: Vec::new() };
        self.logs.set_and_swap(i, &mut log);
        assert(log.deep_view() == before[i as int]);
        let mut found = false;
        if compacted {
            if let Some(k) = &key {
                assert(k.deep_view() =~= k@);
                found = replace_by_key(&mut log.records, k, &value, now);
            }
        }
        assert(found == upserts(records, key.deep_view(), compacted));
        if !found {
            let next: u64 = if log.records.len() == 0 {
                0
            } else {
                let last = &log.records[log.records.len() - 1];
                assert(last.deep_view() == records.last());
                last.id + 1
            };
            if next > 0x7fff_ffff_ffff_fffe {
                self.logs.set(i, log);
                assert(self@ =~= before);
                return Err(StoreError::OffsetsExhausted);
            }
            log.records.push(
                Record { id: next, partition: partition, timestamp: now, key: key, value: value },
            );
            assert(log.records.deep_view() =~= appended(
                records,
                partition,
                now,
                key.deep_view(),
                value.deep_view(),
                compacted,
            ));
        }
        let ghost after = log.records.deep_view();
        assert(in_order(after));
        self.logs.set(i, log);
        assert(self@ =~= with_records(before, topic@, after));
        assert forall|j: int| 0 <= j < self@.len() implies in_order(#[trigger] self@[j].records) by {
            if j != i {
                assert(self@[j] == before[j]);
            }
        }
        Ok(())
    }

    /// The first `limit` records of a topic with an offset of at least
    /// `from_offset`, in the order of their offsets.
    pub fn scan(&self, topic: &String, from_offset: u64, limit: usize) -> (r: Result<
        Vec<Record>,
        StoreError,
    >)
        ensures
            match r {
                Ok(found) => scan_outcome(self@, topic@, from_offset, limit as nat) == Ok::<
                    Seq<Stored>,
                    StoreError,
                >(found.deep_view()),
                Err(e) => scan_outcome(self@, topic@, from_offset, limit as nat) == Err::<
                    Seq<Stored>,
                    StoreError,
                >(e),
            },
    {
        let i = self.find(topic);
        if i == self.logs.len() {
            return Err(StoreError::UnknownTopic);
        }
        let records = &self.logs[i].records;
        let ghost models = records.deep_view();
        assert(models == records_of(self@, topic@));
        let mut found: Vec<Record> = Vec::new();
        let mut k: usize = 0;
        assert(found.deep_view() =~= Seq::<Stored>::empty());
        assert(models.take(0) =~= Seq::<Stored>::empty());
        while k < records.len()
            invariant
                k <= records.len(),
                models == records.deep_view(),
                found.deep_view() == at_most(
                    at_or_after(models.take(k as int), from_offset),
                    limit as nat,
                ),
                found.len() <= limit,
            decreases records.len() - k,
        {
            let ghost reached = at_or_after(models.take(k as int), from_offset);
            assert(models.take(k + 1).drop_last() =~= models.take(k as int));
            assert(models.take(k + 1).last() == models[k as int]);
            if records[k].id >= from_offset && found.len() < limit {
                let ghost held = found.deep_view();
                found.push(copy_record(&records[k]));
                assert(found.deep_view() =~= held.push(models[k as int]));
                assert(held == reached);
            } else if records[k].id >= from_offset {
                assert(reached.push(models[k as int]).take(limit as int) =~= reached.take(
                    limit as int,
                ));
            }
            k += 1;
        }
        assert(models.take(records.len() as int) =~= models);
        Ok(found)
    }

    /// Deletes the records of a topic that at time `now` are older than
    /// `retention_ms` milliseconds.
    pub fn delete_expired(&mut self, topic: &String, retention_ms: u64, now: u64) -> (r: Result<
        (),
        StoreError,
    >)
        requires
            old(self).wf(),
        ensures
            final(self).wf(),
            match r {
                Ok(_) => expire_outcome(old(self)@, topic@, retention_ms, now) == Ok::<
                    Seq<LogModel>,
                    StoreError,
                >(final(self)@),
                Err(e) => final(self)@ == old(self)@ && expire_outcome(
                    old(self)@,
                    topic@,
                    retention_ms,
                    now,
                ) == Err::<Seq<LogModel>, StoreError>(e),
            },
    {
        let i = self.find(topic);
        if i == self.logs.len() {
            return Err(StoreError::UnknownTopic);
        }
        let ghost before = self@;
        let ghost models = before[i as int].records;
        assert(in_order(models));
        let mut kept: Vec<Record> = Vec::new();
        let mut k: usize = 0;
        assert(kept.deep_view() =~= Seq::<Stored>::empty());
        assert(models.take(0) =~= Seq::<Stored>::empty());
        while k < self.logs[i].records.len()
            invariant
                i < self.logs.len(),
                k <= self.logs[i as int].records.len(),
                models == self.logs[i as int].records.deep_view(),
                kept.deep_view() == unexpired(models.take(k as int), retention_ms, now),
            decreases self.logs[i as int].records.len() - k,
        {
            let record = &self.logs[i].records[k];
            assert(models.take(k + 1).drop_last() =~= models.take(k as int));
            assert(models.take(k + 1).last() == models[k as int]);
            assert(record.deep_view() == models[k as int]);
            if record.timestamp >= now || now - record.timestamp <= retention_ms {
                let ghost held = kept.deep_view();
                kept.push(copy_record(record));
                assert(kept.deep_view() =~= held.push(models[k as int]));
            }
            k += 1;
        }
        assert(models.take(models.len() as int) =~= models);
        proof {
            lemma_unexpired_in_order(models, retention_ms, now);
        }
        let ghost after = kept.deep_view();
        self.logs.set(i, TopicLog { name: topic.clone(), records: kept });
        assert(self@ =~= with_records(before, topic@, after));
        assert forall|j: int| 0 <= j < self@.len() implies in_order(#[trigger] self@[j].records) by {
            if j != i {
                assert(self@[j] == before[j]);
            }
        }
        Ok(())
    }
}

/// No record of a log in order has an offset at or after the next offset.
pub proof fn lemma_nothing_at_next_offset(records: Seq<Stored>, from: u64)
    requires
        in_order(records),
        next_offset_of(records) <= from,
    ensures
        at_or_after(records, from) == Seq::<Stored>::empty(),
    decreases records.len(),
{
    if records.len() > 0 {
        let front = records.drop_last();
        if front.len() > 0 {
            assert(front.last() == records[records.len() - 2]);
        }
        lemma_nothing_at_next_offset(front, from);
    }
}

/// A scan from offset 0 skips no record.
pub proof fn lemma_scan_from_start(records: Seq<Stored>)
    ensures
        at_or_after(records, 0) == records,
    decreases records.len(),
{
    if records.len() > 0 {
        lemma_scan_from_start(records.drop_last());
        assert(records.drop_last().push(records.last()) =~= records);
    }
}

/// A record that is appended as a new one is what a scan from the offset
/// that was next before gives back: it has that offset and the partition,
/// timestamp, key and value it was appended with, and nothing follows it.
pub proof fn lemma_append_then_scan(
    records: Seq<Stored>,
    partition: u32,
    timestamp: u64,
    key: Option<Seq<u8>>,
    value: Option<Seq<u8>>,
    compacted: bool,
    limit: nat,
)
    requires
        in_order(records),
        has_room(records),
        !upserts(records, key, compacted),
        limit >= 1,
    ensures
        scanned(
            appended(records, partition, timestamp, key, value, compacted),
            next_offset_of(records) as u64,
            limit,
        ) == seq![
            Stored {
                id: next_offset_of(records) as u64,
                partition: partition,
                timestamp: timestamp,
                key: key,
                value: value,
            },
        ],
        in_order(appended(records, partition, timestamp, key, value, compacted)),
{
    let before = next_offset_of(records) as u64;
    let fresh = Stored {
        id: before,
        partition: partition,
        timestamp: timestamp,
        key: key,
        value: value,
    };
    let after = records.push(fresh);
    lemma_nothing_at_next_offset(records, before);
    assert(after.drop_last() =~= records);
    assert(at_or_after(after, before) =~= seq![fresh]);
    if records.len() > 0 {
        assert(records.last() == records[records.len() - 1]);
    }
}

/// Whether at most one record of the log has the key.
pub open spec fn key_at_most_once(records: Seq<Stored>, key: Seq<u8>) -> bool {
    forall|i: int, j: int|
        0 <= i < records.len() && 0 <= j < records.len() && (#[trigger] records[i]).key == Some(key)
            && (#[trigger] records[j]).key == Some(key) ==> i == j
}

/// On a compacted topic, a key that is appended twice is held by exactly one
/// record afterwards, and that record has the value appended last. A scan
/// from offset 0 that is not cut short by its limit shows the whole log.
#[verifier::rlimit(40)]
pub proof fn lemma_compacted_upsert(
    records: Seq<Stored>,
    key: Seq<u8>,
    first: (u32, u64, Option<Seq<u8>>),
    second: (u32, u64, Option<Seq<u8>>),
    limit: nat,
)
    requires
        key_at_most_once(records, key),
    ensures
        ({
            let once = appended(records, first.0, first.1, Some(key), first.2, true);
            let twice = appended(once, second.0, second.1, Some(key), second.2, true);
            &&& exists|i: int|
                0 <= i < twice.len() && (#[trigger] twice[i]).key == Some(key) && twice[i].value
                    == second.2
            &&& key_at_most_once(twice, key)
            &&& limit >= twice.len() ==> scanned(twice, 0, limit) == twice
        }),
{
    let once = appended(records, first.0, first.1, Some(key), first.2, true);
    let twice = appended(once, second.0, second.1, Some(key), second.2, true);
    if holds_key(records, key) {
        let i = choose|i: int| 0 <= i < records.len() && (#[trigger] records[i]).key == Some(key);
        assert(once[i].key == Some(key));
    } else {
        assert(once[once.len() - 1].key == Some(key));
    }
    assert(holds_key(once, key));
    assert(key_at_most_once(once, key)) by {
        assert forall|i: int, j: int|
            0 <= i < once.len() && 0 <= j < once.len() && (#[trigger] once[i]).key == Some(key)
                && (#[trigger] once[j]).key == Some(key) implies i == j by {
            if holds_key(records, key) {
                assert(records[i].key == Some(key));
                assert(records[j].key == Some(key));
            } else {
                if i < records.len() {
                    assert(records[i].key == Some(key));
                }
                if j < records.len() {
                    assert(records[j].key == Some(key));
                }
            }
        }
    }
    let k = choose|k: int| 0 <= k < once.len() && (#[trigger] once[k]).key == Some(key);
    assert(twice[k].key == Some(key) && twice[k].value == second.2);
    assert(key_at_most_once(twice, key)) by {
        assert forall|i: int, j: int|
            0 <= i < twice.len() && 0 <= j < twice.len() && (#[trigger] twice[i]).key == Some(key)
                && (#[trigger] twice[j]).key == Some(key) implies i == j by {
            assert(once[i].key == Some(key));
            assert(once[j].key == Some(key));
        }
    }
    lemma_scan_from_start(twice);
}

/// No log before the position of a name has that name.
pub proof fn lemma_index_of_first(logs: Seq<LogModel>, name: Seq<char>, k: int)
    requires
        0 <= k < index_of(logs, name),
    ensures
        k < logs.len(),
        logs[k].name != name,
    decreases logs.len(),
{
    lemma_index_of_bounds(logs, name);
    if k > 0 {
        lemma_index_of_first(logs.skip(1), name, k - 1);
        assert(logs.skip(1)[k - 1] == logs[k]);
    }
}

/// Replacing the records of a topic leaves the topic where it was, with the
/// new records, and every other topic as it was.
pub proof fn lemma_with_records(logs: Seq<LogModel>, name: Seq<char>, records: Seq<Stored>)
    requires
        has_topic(logs, name),
    ensures
        has_topic(with_records(logs, name, records), name),
        records_of(with_records(logs, name, records), name) == records,
        index_of(with_records(logs, name, records), name) == index_of(logs, name),
{
    let i = index_of(logs, name);
    let after = with_records(logs, name, records);
    lemma_index_of_bounds(logs, name);
    assert forall|k: int| 0 <= k < i implies after[k].name != name by {
        lemma_index_of_first(logs, name, k);
    }
    lemma_index_of(after, name, i);
}

} // verus!
