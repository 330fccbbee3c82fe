//! The operation log: reads of length-prefixed fields at given offsets, appends
//! of records, and the replay that rebuilds the index from the whole log.

use vstd::prelude::*;

use crate::codec::{
    be_bytes, be_value, delete_record, encode, lemma_be_round_trip, op_key, put_record, read_be,
    record_bytes, LogOperation, LEN_WIDTH, TAG_DELETE, TAG_PUT,
};
use crate::index::KeyIndex;

verus! {

/// The ways in which the store can fail.
#[derive(Debug, Clone, Copy, PartialEq, Eq, Structural)]
pub enum LogError {
    /// The storage path given is not a directory.
    Configuration,
    /// A read, write or flush failed, or a field ran past the end of the log.
    Io,
    /// Replay met a byte that cannot open a record, or a record cut short.
    CorruptLog,
}

/// The length that the prefix at `pos` announces.
pub open spec fn field_len(log: Seq<u8>, pos: int) -> int {
    be_value(log.subrange(pos, pos + LEN_WIDTH)) as int
}

/// The position just past the field whose prefix starts at `pos`.
pub open spec fn field_end(log: Seq<u8>, pos: int) -> int {
    pos + LEN_WIDTH + field_len(log, pos)
}

/// Whether a whole length-prefixed field starts at `pos`.
pub open spec fn field_fits(log: Seq<u8>, pos: int) -> bool {
    0 <= pos && pos + LEN_WIDTH <= log.len() && field_end(log, pos) <= log.len()
}

/// The bytes of the field whose prefix starts at `pos`.
pub open spec fn field_at(log: Seq<u8>, pos: int) -> Seq<u8> {
    log.subrange(pos + LEN_WIDTH, field_end(log, pos))
}

/// The index that a scan of `log` from `pos` builds, starting from `idx`.
pub open spec fn replay_from(log: Seq<u8>, pos: int, idx: Map<Seq<u8>, u64>) -> Result<
    Map<Seq<u8>, u64>,
    LogError,
>
    decreases log.len() - pos,
{
    if pos < 0 || pos >= log.len() {
        Ok(idx)
    } else if log[pos] == TAG_PUT {
        let kpos = pos + 1;
        if !field_fits(log, kpos) {
            Err(LogError::CorruptLog)
        } else {
            let vpos = field_end(log, kpos);
            if !field_fits(log, vpos) {
                Err(LogError::CorruptLog)
            } else {
                replay_from(log, field_end(log, vpos), idx.insert(field_at(log, kpos), vpos as u64))
            }
        }
    } else if log[pos] == TAG_DELETE {
        if !field_fits(log, pos + 1) {
            Err(LogError::CorruptLog)
        } else {
            replay_from(log, field_end(log, pos + 1), idx.remove(field_at(log, pos + 1)))
        }
    } else {
        Err(LogError::CorruptLog)
    }
}

/// The index that a scan of the whole log builds.
pub open spec fn replay(log: Seq<u8>) -> Result<Map<Seq<u8>, u64>, LogError> {
    replay_from(log, 0, Map::empty())
}

/// Every offset in `idx` opens a whole field of `log`.
pub open spec fn offsets_valid(log: Seq<u8>, idx: Map<Seq<u8>, u64>) -> bool {
    forall|k: Seq<u8>| #[trigger] idx.contains_key(k) ==> field_fits(log, idx[k] as int)
}

/// What a read of the field at `pos` gives: its bytes and the position past it,
/// or `Io` where the log ends first.
pub open spec fn read_result(log: Seq<u8>, pos: int, r: Result<(Vec<u8>, u64), LogError>) -> bool {
    match r {
        Ok((f, e)) => field_fits(log, pos) && f@ == field_at(log, pos) && e as int == field_end(
            log,
            pos,
        ),
        Err(err) => !field_fits(log, pos) && err == LogError::Io,
    }
}

/// A copy of `b` from `start` up to `end`.
fn copy_range(b: &Vec<u8>, start: usize, end: usize) -> (r: Vec<u8>)
    requires
        start <= end <= b@.len(),
    ensures
        r@ == b@.subrange(start as int, end as int),
{
    let mut out: Vec<u8> = Vec::new();
    let mut i: usize = start;
    while i < end
        invariant
            start <= i <= end <= b@.len(),
            out@ == b@.subrange(start as int, i as int),
        decreases end - i,
    {
        out.push(b[i]);
        i = i + 1;
        assert(out@ =~= b@.subrange(start as int, i as int));
    }
    out
}

/// Reads the length-prefixed field of `b` whose prefix starts at `pos`.
fn read_field(b: &Vec<u8>, pos: u64) -> (r: Result<(Vec<u8>, u64), LogError>)
    ensures
        read_result(b@, pos as int, r),
{
    let len = b.len();
    if pos > len as u64 {
        return Err(LogError::Io);
    }
    let p = pos as usize;
    if len - p < LEN_WIDTH {
        return Err(LogError::Io);
    }
    let n = read_be(b, p);
    let start = p + LEN_WIDTH;
    if n > (len - start) as u64 {
        return Err(LogError::Io);
    }
    let end = start + n as usize;
    let f = copy_range(b, start, end);
    Ok((f, end as u64))
}

/// An append-only log of records, held as its bytes.
pub struct Log {
    bytes: Vec<u8>,
}

impl View for Log {
    type V = Seq<u8>;

    closed spec fn view(&self) -> Seq<u8> {
        self.bytes@
    }
}

impl Log {
    /// A log whose bytes are `contents`, as read from storage.
    pub fn new(contents: Vec<u8>) -> (r: Log)
        ensures
            r@ == contents@,
    {
        Log { bytes: contents }
    }

    /// The number of bytes in the log.
    pub fn len(&self) -> (r: usize)
        ensures
            r == self@.len(),
    {
        self.bytes.len()
    }

    /// The bytes of the log.
    pub fn bytes(&self) -> (r: &Vec<u8>)
        ensures
            r@ == self@,
    {
        &self.bytes
    }

    /// Reads the key field at `key_start_position`: its bytes and the position
    /// just past it.
    pub fn get_key(&self, key_start_position: u64) -> (r: Result<(Vec<u8>, u64), LogError>)
        ensures
            read_result(self@, key_start_position as int, r),
    {
        read_field(&self.bytes, key_start_position)
    }

    /// Reads the value field at `value_start_position`: its bytes and the
    /// position just past it.
    pub fn get_value(&self, value_start_position: u64) -> (r: Result<(Vec<u8>, u64), LogError>)
        ensures
            read_result(self@, value_start_position as int, r),
    {
        read_field(&self.bytes, value_start_position)
    }

    /// Appends the record of `op`, returning the offset just past its key field:
    /// for a put, where its value field starts.
    pub fn append(&mut self, op: LogOperation) -> (r: u64)
        requires
            old(self)@.len() + record_bytes(op).len() <= usize::MAX,
        ensures
            final(self)@ == old(self)@ + record_bytes(op),
            r == old(self)@.len() + 1 + LEN_WIDTH + op_key(op).len(),
    {
        let rec = encode(&op);
        let key_len = match &op {
            LogOperation::Put(k, _) => k.len(),
            LogOperation::Delete(k) => k.len(),
        };
        let position = self.bytes.len();
        let mut i: usize = 0;
        while i < rec.len()
            invariant
                i <= rec@.len(),
                rec@ == record_bytes(op),
                position == old(self)@.len(),
                self.bytes@ == old(self)@ + rec@.subrange(0, i as int),
                old(self)@.len() + rec@.len() <= usize::MAX,
            decreases rec@.len() - i,
        {
            self.bytes.push(rec[i]);
            i = i + 1;
            assert(rec@.subrange(0, i as int) =~= rec@.subrange(0, i - 1) + seq![rec@[i - 1]]);
        }
        assert(rec@.subrange(0, rec@.len() as int) =~= rec@);
        (position + 1 + LEN_WIDTH + key_len) as u64
    }

    /// Scans the whole log and builds the index of the keys it leaves live.
    pub fn construct_in_memory_cache(&self) -> (r: Result<KeyIndex, LogError>)
        ensures
            match r {
                Ok(idx) => idx.wf() && replay(self@) == Ok::<_, LogError>(idx@) && offsets_valid(
                    self@,
                    idx@,
                ),
                Err(e) => replay(self@) == Err::<Map<Seq<u8>, u64>, _>(e),
            },
    {
        let mut idx = KeyIndex::new();
        let len = self.bytes.len();
        let mut cursor: usize = 0;
        while cursor < len
            invariant
                idx.wf(),
                len == self@.len(),
                cursor <= len,
                replay_from(self@, cursor as int, idx@) == replay(self@),
                offsets_valid(self@, idx@),
            decreases len - cursor,
        {
            let tag = self.bytes[cursor];
            if tag == TAG_PUT {
                let (key, value_cursor) = match read_field(&self.bytes, (cursor + 1) as u64) {
                    Ok(x) => x,
                    Err(_) => return Err(LogError::CorruptLog),
                };
                let next = match read_field(&self.bytes, value_cursor) {
                    Ok(x) => x.1,
                    Err(_) => return Err(LogError::CorruptLog),
                };
                idx.insert(key, value_cursor);
                cursor = next as usize;
            } else if tag == TAG_DELETE {
                let (key, next) = match read_field(&self.bytes, (cursor + 1) as u64) {
                    Ok(x) => x,
                    Err(_) => return Err(LogError::CorruptLog),
                };
                idx.remove(key.as_slice());
                cursor = next as usize;
            } else {
                return Err(LogError::CorruptLog);
            }
        }
        Ok(idx)
    }
}

/// A field that fits in `a` reads the same once more bytes follow `a`.
pub proof fn lemma_field_extend(a: Seq<u8>, b: Seq<u8>, pos: int)
    requires
        field_fits(a, pos),
    ensures
        field_fits(a + b, pos),
        field_len(a + b, pos) == field_len(a, pos),
        field_end(a + b, pos) == field_end(a, pos),
        field_at(a + b, pos) == field_at(a, pos),
{
    assert((a + b).subrange(pos, pos + LEN_WIDTH) =~= a.subrange(pos, pos + LEN_WIDTH));
    assert(field_at(a + b, pos) =~= field_at(a, pos));
}

/// A scan that reaches the end of `a` goes on, once `b` follows, from the
/// end of `a` with the index it had built.
pub proof fn lemma_replay_extend(
    a: Seq<u8>,
    b: Seq<u8>,
    pos: int,
    idx: Map<Seq<u8>, u64>,
    out: Map<Seq<u8>, u64>,
)
    requires
        0 <= pos <= a.len(),
        replay_from(a, pos, idx) == Ok::<_, LogError>(out),
    ensures
        replay_from(a + b, pos, idx) == replay_from(a + b, a.len() as int, out),
    decreases a.len() - pos,
{
    if pos < a.len() {
        let s = a + b;
        assert(s[pos] == a[pos]);
        if a[pos] == TAG_PUT {
            let kpos = pos + 1;
            lemma_field_extend(a, b, kpos);
            let vpos = field_end(a, kpos);
            lemma_field_extend(a, b, vpos);
            lemma_replay_extend(
                a,
                b,
                field_end(a, vpos),
                idx.insert(field_at(a, kpos), vpos as u64),
                out,
            );
        } else {
            lemma_field_extend(a, b, pos + 1);
            lemma_replay_extend(a, b, field_end(a, pos + 1), idx.remove(field_at(a, pos + 1)), out);
        }
    }
}

/// The field that `field_bytes(f)` writes at `pos` reads back as `f`.
pub proof fn lemma_field_read_back(s: Seq<u8>, pos: int, f: Seq<u8>)
    requires
        0 <= pos,
        f.len() <= u64::MAX,
        pos + LEN_WIDTH + f.len() <= s.len(),
        s.subrange(pos, pos + LEN_WIDTH + f.len()) == crate::codec::field_bytes(f),
    ensures
        field_fits(s, pos),
        field_at(s, pos) == f,
        field_end(s, pos) == pos + LEN_WIDTH + f.len(),
{
    let fb = crate::codec::field_bytes(f);
    assert(s.subrange(pos, pos + LEN_WIDTH) =~= fb.subrange(0, LEN_WIDTH as int));
    assert(fb.subrange(0, LEN_WIDTH as int) =~= be_bytes(f.len() as u64));
    lemma_be_round_trip(f.len() as u64);
    assert(field_at(s, pos) =~= fb.subrange(LEN_WIDTH as int, fb.len() as int));
    assert(fb.subrange(LEN_WIDTH as int, fb.len() as int) =~= f);
}

/// Replaying a put record that follows `a` sets its key to the offset of its value.
pub proof fn lemma_replay_put_record(a: Seq<u8>, k: Seq<u8>, v: Seq<u8>, idx: Map<Seq<u8>, u64>)
    requires
        k.len() <= u64::MAX,
        v.len() <= u64::MAX,
    ensures
        replay_from(a + put_record(k, v), a.len() as int, idx) == Ok::<_, LogError>(
            idx.insert(k, (a.len() + 1 + LEN_WIDTH + k.len()) as u64),
        ),
        field_fits(a + put_record(k, v), a.len() + 1 + LEN_WIDTH + k.len()),
        field_at(a + put_record(k, v), a.len() + 1 + LEN_WIDTH + k.len()) == v,
{
    let s = a + put_record(k, v);
    let p = a.len() as int;
    let kpos = p + 1;
    let vpos = kpos + LEN_WIDTH + k.len();
    assert(s[p] == TAG_PUT);
    assert(s.subrange(kpos, vpos) =~= crate::codec::field_bytes(k));
    lemma_field_read_back(s, kpos, k);
    assert(s.subrange(vpos, s.len() as int) =~= crate::codec::field_bytes(v));
    lemma_field_read_back(s, vpos, v);
    let next = idx.insert(k, vpos as u64);
    assert(field_end(s, vpos) == s.len());
    assert(replay_from(s, s.len() as int, next) == Ok::<_, LogError>(next));
}

/// Replaying a delete record that follows `a` removes its key.
pub proof fn lemma_replay_delete_record(a: Seq<u8>, k: Seq<u8>, idx: Map<Seq<u8>, u64>)
    requires
        k.len() <= u64::MAX,
    ensures
        replay_from(a + delete_record(k), a.len() as int, idx) == Ok::<_, LogError>(idx.remove(k)),
{
    let s = a + delete_record(k);
    let p = a.len() as int;
    assert(s[p] == TAG_DELETE);
    assert(s.subrange(p + 1, s.len() as int) =~= crate::codec::field_bytes(k));
    lemma_field_read_back(s, p + 1, k);
    assert(field_end(s, p + 1) == s.len());
    assert(replay_from(s, s.len() as int, idx.remove(k)) == Ok::<_, LogError>(idx.remove(k)));
}

} // verus!
