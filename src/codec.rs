//! Byte layout of the log: big-endian length prefixes and the two record kinds.

use vstd::prelude::*;

verus! {

/// Width in bytes of every length prefix in the log.
pub const LEN_WIDTH: usize = 8;

/// Tag byte that opens a put record (`'p'`).
pub const TAG_PUT: u8 = 0x70;

/// Tag byte that opens a delete record (`'d'`).
pub const TAG_DELETE: u8 = 0x64;

/// The eight big-endian bytes of `n`.
pub open spec fn be_bytes(n: u64) -> Seq<u8> {
    seq![
        (n >> 56u64) as u8,
        (n >> 48u64) as u8,
        (n >> 40u64) as u8,
        (n >> 32u64) as u8,
        (n >> 24u64) as u8,
        (n >> 16u64) as u8,
        (n >> 8u64) as u8,
        n as u8,
    ]
}

/// The number whose big-endian bytes are the first eight of `s`.
pub open spec fn be_value(s: Seq<u8>) -> u64 {
    ((s[0] as u64) << 56u64) | ((s[1] as u64) << 48u64) | ((s[2] as u64) << 40u64) | ((
    s[3] as u64) << 32u64) | ((s[4] as u64) << 24u64) | ((s[5] as u64) << 16u64) | ((
    s[6] as u64) << 8u64) | (s[7] as u64)
}

/// Decoding a length prefix gives back the number that was encoded.
pub proof fn lemma_be_round_trip(n: u64)
    ensures
        be_value(be_bytes(n)) == n,
{
    let s = be_bytes(n);
    let b0 = (n >> 56u64) as u8;
    let b1 = (n >> 48u64) as u8;
    let b2 = (n >> 40u64) as u8;
    let b3 = (n >> 32u64) as u8;
    let b4 = (n >> 24u64) as u8;
    let b5 = (n >> 16u64) as u8;
    let b6 = (n >> 8u64) as u8;
    let b7 = n as u8;
    assert(s[0] == b0 && s[1] == b1 && s[2] == b2 && s[3] == b3);
    assert(s[4] == b4 && s[5] == b5 && s[6] == b6 && s[7] == b7);
    assert(((b0 as u64) << 56u64) | ((b1 as u64) << 48u64) | ((b2 as u64) << 40u64) | ((
    b3 as u64) << 32u64) | ((b4 as u64) << 24u64) | ((b5 as u64) << 16u64) | ((b6 as u64)
        << 8u64) | (b7 as u64) == n) by (bit_vector)
        requires
            b0 == (n >> 56u64) as u8,
            b1 == (n >> 48u64) as u8,
            b2 == (n >> 40u64) as u8,
            b3 == (n >> 32u64) as u8,
            b4 == (n >> 24u64) as u8,
            b5 == (n >> 16u64) as u8,
            b6 == (n >> 8u64) as u8,
            b7 == n as u8,
    ;
}

/// A length-prefixed field: the prefix, then the bytes themselves.
pub open spec fn field_bytes(f: Seq<u8>) -> Seq<u8> {
    be_bytes(f.len() as u64) + f
}

/// One operation on the store, as it is written to the log.
pub enum LogOperation {
    Put(Vec<u8>, Vec<u8>),
    Delete(Vec<u8>),
}

/// The key that `op` is about.
pub open spec fn op_key(op: LogOperation) -> Seq<u8> {
    match op {
        LogOperation::Put(k, _) => k@,
        LogOperation::Delete(k) => k@,
    }
}

/// The bytes of a put record: tag, key field, value field.
pub open spec fn put_record(k: Seq<u8>, v: Seq<u8>) -> Seq<u8> {
    seq![TAG_PUT] + field_bytes(k) + field_bytes(v)
}

/// The bytes of a delete record: tag, key field.
pub open spec fn delete_record(k: Seq<u8>) -> Seq<u8> {
    seq![TAG_DELETE] + field_bytes(k)
}

/// The bytes of one record.
pub open spec fn record_bytes(op: LogOperation) -> Seq<u8> {
    match op {
        LogOperation::Put(k, v) => put_record(k@, v@),
        LogOperation::Delete(k) => delete_record(k@),
    }
}

/// Appends the big-endian bytes of `n` to `out`.
pub fn push_be_bytes(out: &mut Vec<u8>, n: u64)
    ensures
        final(out)@ == old(out)@ + be_bytes(n),
{
    out.push((n >> 56u64) as u8);
    out.push((n >> 48u64) as u8);
    out.push((n >> 40u64) as u8);
    out.push((n >> 32u64) as u8);
    out.push((n >> 24u64) as u8);
    out.push((n >> 16u64) as u8);
    out.push((n >> 8u64) as u8);
    out.push(n as u8);
    assert(out@ =~= old(out)@ + be_bytes(n));
}

/// Reads the big-endian number held by the eight bytes of `b` from `pos`.
pub fn read_be(b: &Vec<u8>, pos: usize) -> (r: u64)
    requires
        pos + LEN_WIDTH <= b@.len(),
    ensures
        r == be_value(b@.subrange(pos as int, pos + LEN_WIDTH)),
{
    // A Vec's length fits in usize, which bounds the positions read below.
    let _len = b.len();
    let s = Ghost(b@.subrange(pos as int, pos + LEN_WIDTH));
    assert(s@[0] == b@[pos as int] && s@[1] == b@[pos + 1] && s@[2] == b@[pos + 2]);
    assert(s@[3] == b@[pos + 3] && s@[4] == b@[pos + 4] && s@[5] == b@[pos + 5]);
    assert(s@[6] == b@[pos + 6] && s@[7] == b@[pos + 7]);
    ((b[pos] as u64) << 56u64) | ((b[pos + 1] as u64) << 48u64) | ((b[pos + 2] as u64)
        << 40u64) | ((b[pos + 3] as u64) << 32u64) | ((b[pos + 4] as u64) << 24u64) | ((b[pos
        + 5] as u64) << 16u64) | ((b[pos + 6] as u64) << 8u64) | (b[pos + 7] as u64)
}

/// Appends to `out` the bytes of `f`, one by one.
pub fn push_bytes(out: &mut Vec<u8>, f: &[u8])
    ensures
        final(out)@ == old(out)@ + f@,
{
    let mut i: usize = 0;
    while i < f.len()
        invariant
            i <= f@.len(),
            out@ == old(out)@ + f@.subrange(0, i as int),
        decreases f@.len() - i,
    {
        out.push(f[i]);
        i = i + 1;
        assert(f@.subrange(0, i as int) =~= f@.subrange(0, i - 1) + seq![f@[i - 1]]);
    }
    assert(f@.subrange(0, f@.len() as int) =~= f@);
}

/// Appends a length-prefixed field holding `f` to `out`.
pub fn push_field(out: &mut Vec<u8>, f: &[u8])
    ensures
        final(out)@ == old(out)@ + field_bytes(f@),
{
    push_be_bytes(out, f.len() as u64);
    push_bytes(out, f);
    assert(out@ =~= old(out)@ + field_bytes(f@));
}

/// The bytes that record `op` in the log.
pub fn encode(op: &LogOperation) -> (r: Vec<u8>)
    ensures
        r@ == record_bytes(*op),
{
    let mut out: Vec<u8> = Vec::new();
    match op {
        LogOperation::Put(k, v) => {
            out.push(TAG_PUT);
            push_field(&mut out, k.as_slice());
            push_field(&mut out, v.as_slice());
            assert(out@ =~= record_bytes(*op));
        },
        LogOperation::Delete(k) => {
            out.push(TAG_DELETE);
            push_field(&mut out, k.as_slice());
            assert(out@ =~= record_bytes(*op));
        },
    }
    out
}

} // verus!
