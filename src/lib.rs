//! A minimal key-value store kept as an append-only log of put and delete
//! records, with an in-memory index from each live key to the offset of its
//! latest value in the log.

use vstd::prelude::*;

pub mod codec;
pub mod file_log;
pub mod index;

pub use codec::LogOperation;
pub use file_log::{Log, LogError};
pub use index::KeyIndex;

use codec::{delete_record, put_record, TAG_DELETE, TAG_PUT};
use file_log::{
    field_at, replay_from, field_fits, lemma_field_extend, lemma_replay_delete_record, lemma_replay_extend,
    lemma_replay_put_record, offsets_valid, replay,
};

verus! {

/// The value that each key of `idx` points at in `log`.
pub open spec fn values_of(log: Seq<u8>, idx: Map<Seq<u8>, u64>) -> Map<Seq<u8>, Seq<u8>> {
    Map::new(|k: Seq<u8>| idx.contains_key(k), |k: Seq<u8>| field_at(log, idx[k] as int))
}

/// The keys and values that a replay of `log` finds, where the replay succeeds.
pub open spec fn stored_contents(log: Seq<u8>) -> Option<Map<Seq<u8>, Seq<u8>>> {
    match replay(log) {
        Ok(idx) => Some(values_of(log, idx)),
        Err(_) => None,
    }
}

/// Once more bytes follow the log, every offset of the index still opens the
/// same value.
proof fn lemma_values_extend(log: Seq<u8>, more: Seq<u8>, idx: Map<Seq<u8>, u64>)
    requires
        offsets_valid(log, idx),
    ensures
        offsets_valid(log + more, idx),
        values_of(log + more, idx) == values_of(log, idx),
{
    assert forall|k: Seq<u8>| #[trigger] idx.contains_key(k) implies field_fits(
        log + more,
        idx[k] as int,
    ) && field_at(log + more, idx[k] as int) == field_at(log, idx[k] as int) by {
        lemma_field_extend(log, more, idx[k] as int);
    }
    assert(values_of(log + more, idx) =~= values_of(log, idx));
}

/// The store: the log, which is the source of truth, and the index over it.
/// The log's bytes are held here as well as on storage: whoever keeps the
/// storage copy writes and syncs each record before calling `put` or `delete`.
pub struct SimpleDB {
    records: KeyIndex,
    log: Log,
}

impl View for SimpleDB {
    type V = Map<Seq<u8>, Seq<u8>>;

    /// Each live key with the value that its latest put wrote.
    closed spec fn view(&self) -> Map<Seq<u8>, Seq<u8>> {
        values_of(self.log@, self.records@)
    }
}

impl SimpleDB {
    /// The index is what a replay of the log builds, and each of its offsets
    /// opens a whole value field.
    pub closed spec fn wf(&self) -> bool {
        &&& self.records.wf()
        &&& replay(self.log@) == Ok::<_, LogError>(self.records@)
        &&& offsets_valid(self.log@, self.records@)
    }

    /// The bytes of the log.
    pub closed spec fn log_view(&self) -> Seq<u8> {
        self.log@
    }

    /// Opens a store over the log bytes `contents`, rebuilding its index.
    pub fn new(contents: Vec<u8>) -> (r: Result<SimpleDB, LogError>)
        ensures
            match r {
                Ok(db) => db.wf() && db.log_view() == contents@ && stored_contents(contents@)
                    == Some(db@),
                Err(e) => replay(contents@) == Err::<Map<Seq<u8>, u64>, _>(e),
            },
    {
        let log = Log::new(contents);
        match log.construct_in_memory_cache() {
            Ok(records) => Ok(SimpleDB { records, log }),
            Err(e) => Err(e),
        }
    }

    /// The bytes of the log, to be written to storage.
    pub fn log_bytes(&self) -> (r: &Vec<u8>)
        ensures
            r@ == self.log_view(),
    {
        self.log.bytes()
    }

    /// The value stored for `key`.
    pub fn get(&self, key: &[u8]) -> (r: Option<Vec<u8>>)
        requires
            self.wf(),
        ensures
            match r {
                Some(v) => self@.contains_key(key@) && v@ == self@[key@],
                None => !self@.contains_key(key@),
            },
    {
        match self.records.get(key) {
            Some(offset) => match self.log.get_value(offset) {
                Ok((value, _)) => Some(value),
                Err(_) => None,
            },
            None => None,
        }
    }

    /// Writes `value` for `key`: first the put record to the log, then the
    /// index. Returns the value that `key` had.
    pub fn put(&mut self, key: Vec<u8>, value: Vec<u8>) -> (r: Option<Vec<u8>>)
        requires
            old(self).wf(),
            old(self).log_view().len() + put_record(key@, value@).len() <= usize::MAX,
        ensures
            final(self).wf(),
            final(self).log_view() == old(self).log_view() + put_record(key@, value@),
            final(self)@ == old(self)@.insert(key@, value@),
            match r {
                Some(v) => old(self)@.contains_key(key@) && v@ == old(self)@[key@],
                None => !old(self)@.contains_key(key@),
            },
    {
        let ghost old_log = self.log@;
        let ghost old_records = self.records@;
        let ghost rec = put_record(key@, value@);
        let k2 = key.clone();
        assert(k2@ =~= key@);
        let v2 = value.clone();
        assert(v2@ =~= value@);
        let position = self.log.append(LogOperation::Put(k2, v2));
        proof {
            lemma_replay_extend(old_log, rec, 0, Map::empty(), old_records);
            lemma_replay_put_record(old_log, key@, value@, old_records);
            lemma_values_extend(old_log, rec, old_records);
        }
        let previous = self.records.insert(key, position);
        proof {
            assert(values_of(self.log@, self.records@) =~= values_of(old_log, old_records).insert(
                key@,
                value@,
            ));
        }
        match previous {
            Some(old_position) => match self.log.get_value(old_position) {
                Ok((old_value, _)) => Some(old_value),
                Err(_) => None,
            },
            None => None,
        }
    }

    /// Removes `key`: first the delete record goes to the log, then the key
    /// leaves the index. Returns the value that `key` had.
    pub fn delete(&mut self, key: Vec<u8>) -> (r: Option<Vec<u8>>)
        requires
            old(self).wf(),
            old(self).log_view().len() + delete_record(key@).len() <= usize::MAX,
        ensures
            final(self).wf(),
            final(self).log_view() == old(self).log_view() + delete_record(key@),
            final(self)@ == old(self)@.remove(key@),
            match r {
                Some(v) => old(self)@.contains_key(key@) && v@ == old(self)@[key@],
                None => !old(self)@.contains_key(key@),
            },
    {
        let ghost old_log = self.log@;
        let ghost old_records = self.records@;
        let ghost rec = delete_record(key@);
        let k2 = key.clone();
        assert(k2@ =~= key@);
        let _ = self.log.append(LogOperation::Delete(k2));
        proof {
            lemma_replay_extend(old_log, rec, 0, Map::empty(), old_records);
            lemma_replay_delete_record(old_log, key@, old_records);
            lemma_values_extend(old_log, rec, old_records);
        }
        let previous = self.records.remove(key.as_slice());
        proof {
            assert(values_of(self.log@, self.records@) =~= values_of(old_log, old_records).remove(
                key@,
            ));
        }
        match previous {
            Some(old_position) => match self.log.get_value(old_position) {
                Ok((old_value, _)) => Some(old_value),
                Err(_) => None,
            },
            None => None,
        }
    }
}

/// A get of `k` after a put of `v` under `k` gives `v`: the put leaves the
/// store as `db@.insert(k, v)`, and the get reads the store at `k`.
pub proof fn lemma_put_then_get(db: SimpleDB, k: Seq<u8>, v: Seq<u8>)
    ensures
        db@.insert(k, v).contains_key(k),
        db@.insert(k, v)[k] == v,
{
}

/// After puts of `v1` and then `v2` under `k`, a get of `k` gives `v2`, and the
/// second put hands back `v1`.
pub proof fn lemma_overwrite(db: SimpleDB, k: Seq<u8>, v1: Seq<u8>, v2: Seq<u8>)
    ensures
        db@.insert(k, v1).contains_key(k),
        db@.insert(k, v1)[k] == v1,
        db@.insert(k, v1).insert(k, v2).contains_key(k),
        db@.insert(k, v1).insert(k, v2)[k] == v2,
{
}

/// After a put of `v` under `k` and a delete of `k`, a get of `k` finds
/// nothing, and the delete hands back `v`. A delete of a key that is absent
/// hands back nothing and leaves the store as it was.
pub proof fn lemma_delete(db: SimpleDB, k: Seq<u8>, v: Seq<u8>)
    ensures
        db@.insert(k, v).contains_key(k),
        db@.insert(k, v)[k] == v,
        !db@.insert(k, v).remove(k).contains_key(k),
        !db@.contains_key(k) ==> db@.remove(k) == db@,
{
    assert(!db@.contains_key(k) ==> db@.remove(k) =~= db@);
}

/// Reopening a store over its own log gives back the same keys with the same
/// values, whatever puts and deletes built it.
pub proof fn lemma_reopen_reproduces(db: SimpleDB)
    requires
        db.wf(),
    ensures
        stored_contents(db.log_view()) == Some(db@),
{
}

/// Once a put has returned, its record is in the log, so a store reopened over
/// that log holds the new value.
pub proof fn lemma_put_durable(db: SimpleDB, k: Seq<u8>, v: Seq<u8>)
    requires
        db.wf(),
        db.log_view().len() + put_record(k, v).len() <= usize::MAX,
    ensures
        stored_contents(db.log_view() + put_record(k, v)) == Some(db@.insert(k, v)),
{
    let log = db.log_view();
    let rec = put_record(k, v);
    let off = (log.len() + 1 + codec::LEN_WIDTH + k.len()) as u64;
    lemma_replay_extend(log, rec, 0, Map::empty(), db.records@);
    lemma_replay_put_record(log, k, v, db.records@);
    lemma_values_extend(log, rec, db.records@);
    let s = log + rec;
    assert(field_at(s, off as int) == v);
    let base = values_of(s, db.records@);
    assert(base == db@);
    assert(values_of(s, db.records@.insert(k, off)) =~= base.insert(k, v));
}

/// Once a delete has returned, its record is in the log, so a store reopened
/// over that log no longer holds the key.
pub proof fn lemma_delete_durable(db: SimpleDB, k: Seq<u8>)
    requires
        db.wf(),
        db.log_view().len() + delete_record(k).len() <= usize::MAX,
    ensures
        stored_contents(db.log_view() + delete_record(k)) == Some(db@.remove(k)),
{
    let log = db.log_view();
    let rec = delete_record(k);
    lemma_replay_extend(log, rec, 0, Map::empty(), db.records@);
    lemma_replay_delete_record(log, k, db.records@);
    lemma_values_extend(log, rec, db.records@);
    assert(values_of(log + rec, db.records@.remove(k)) =~= db@.remove(k));
}

/// A log whose first byte opens neither a put nor a delete cannot be opened:
/// the replay fails with `CorruptLog` rather than giving an empty store.
pub proof fn lemma_corrupt_first_byte(log: Seq<u8>)
    requires
        log.len() > 0,
        log[0] != TAG_PUT,
        log[0] != TAG_DELETE,
    ensures
        replay(log) == Err::<Map<Seq<u8>, u64>, _>(LogError::CorruptLog),
        stored_contents(log).is_none(),
{
    assert(replay_from(log, 0, Map::empty()) == Err::<Map<Seq<u8>, u64>, _>(LogError::CorruptLog));
}

} // verus!
