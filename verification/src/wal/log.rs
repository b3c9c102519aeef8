//! The records of the write-ahead log and their byte encoding.
//!
//! A record is an operation byte followed by its fields: 1 (put) with the key
//! length and value length as little-endian `u32`s, the key and the value;
//! 2 (delete) with the key length and the key; 3 (index put) with the index
//! key length, the primary key length, the index key and the primary key;
//! 4 (index delete) with the index key length and the index key.
use vstd::prelude::*;

verus! {

/// One operation recorded in the log.
pub enum WALEntry {
    Put(Vec<u8>, Vec<u8>),
    Delete(Vec<u8>),
    IndexPut(Vec<u8>, Vec<u8>),
    IndexDelete(Vec<u8>),
}

/// The mathematical content of a log record.
pub enum LogRecord {
    Put(Seq<u8>, Seq<u8>),
    Delete(Seq<u8>),
    IndexPut(Seq<u8>, Seq<u8>),
    IndexDelete(Seq<u8>),
}

impl View for WALEntry {
    type V = LogRecord;

    open spec fn view(&self) -> LogRecord {
        match self {
            WALEntry::Put(k, v) => LogRecord::Put(k@, v@),
            WALEntry::Delete(k) => LogRecord::Delete(k@),
            WALEntry::IndexPut(i, p) => LogRecord::IndexPut(i@, p@),
            WALEntry::IndexDelete(i) => LogRecord::IndexDelete(i@),
        }
    }
}

/// Why a log could not be read back.
#[derive(Debug, Clone, Copy, PartialEq, Eq, Structural)]
pub enum WalError {
    /// A record ends before all of its bytes.
    Truncated,
}

/// The four little-endian bytes of `n`.
pub open spec fn u32_le(n: u32) -> Seq<u8> {
    seq![
        (n % 256) as u8,
        ((n / 256) % 256) as u8,
        ((n / 65536) % 256) as u8,
        ((n / 16777216) % 256) as u8,
    ]
}

/// The little-endian `u32` stored at `off` in `data`.
pub open spec fn read_u32(data: Seq<u8>, off: int) -> nat {
    (data[off] + data[off + 1] * 256 + data[off + 2] * 65536 + data[off + 3] * 16777216) as nat
}

/// The length of a field as it is recorded: modulo 2^32.
pub open spec fn len32(s: Seq<u8>) -> u32 {
    s.len() as u32
}

/// The bytes of one record.
pub open spec fn record_bytes(r: LogRecord) -> Seq<u8> {
    match r {
        LogRecord::Put(k, v) => seq![1u8] + u32_le(len32(k)) + u32_le(len32(v)) + k + v,
        LogRecord::Delete(k) => seq![2u8] + u32_le(len32(k)) + k,
        LogRecord::IndexPut(i, p) => seq![3u8] + u32_le(len32(i)) + u32_le(len32(p)) + i + p,
        LogRecord::IndexDelete(i) => seq![4u8] + u32_le(len32(i)) + i,
    }
}

/// The bytes of a sequence of records, one after the other.
pub open spec fn log_bytes(rs: Seq<LogRecord>) -> Seq<u8>
    decreases rs.len(),
{
    if rs.len() == 0 {
        seq![]
    } else {
        record_bytes(rs[0]) + log_bytes(rs.drop_first())
    }
}

/// The result of reading a log: the complete records read, in order, and
/// the error that stopped the reading, if any.
pub type ParsedLog = (Seq<LogRecord>, Option<WalError>);

/// Puts a record in front of the rest of a parse.
pub open spec fn prepend_record(r: LogRecord, rest: ParsedLog) -> ParsedLog {
    (seq![r] + rest.0, rest.1)
}

/// The records read from `data` starting at `off`: reading stops at the end
/// of the data or at an unknown operation byte, and stops with an error at a
/// record that is cut short, after the complete records before it.
pub open spec fn parse_log(data: Seq<u8>, off: int) -> ParsedLog
    decreases data.len() - off,
{
    if off < 0 || off >= data.len() {
        (seq![], None)
    } else {
        let op = data[off];
        if op == 1 || op == 3 {
            if off + 9 > data.len() {
                (seq![], Some(WalError::Truncated))
            } else {
                let a_len = read_u32(data, off + 1);
                let b_len = read_u32(data, off + 5);
                let a_off = off + 9;
                let b_off = a_off + a_len;
                let end = b_off + b_len;
                if end > data.len() {
                    (seq![], Some(WalError::Truncated))
                } else {
                    let a = data.subrange(a_off, b_off);
                    let b = data.subrange(b_off, end);
                    let r = if op == 1 { LogRecord::Put(a, b) } else { LogRecord::IndexPut(a, b) };
                    prepend_record(r, parse_log(data, end))
                }
            }
        } else if op == 2 || op == 4 {
            if off + 5 > data.len() {
                (seq![], Some(WalError::Truncated))
            } else {
                let a_len = read_u32(data, off + 1);
                let a_off = off + 5;
                let end = a_off + a_len;
                if end > data.len() {
                    (seq![], Some(WalError::Truncated))
                } else {
                    let a = data.subrange(a_off, end);
                    let r = if op == 2 { LogRecord::Delete(a) } else { LogRecord::IndexDelete(a) };
                    prepend_record(r, parse_log(data, end))
                }
            }
        } else {
            (seq![], None)
        }
    }
}

/// Whether every field of the record is shorter than 2^32 bytes.
pub open spec fn record_fits(r: LogRecord) -> bool {
    match r {
        LogRecord::Put(k, v) => k.len() <= u32::MAX && v.len() <= u32::MAX,
        LogRecord::Delete(k) => k.len() <= u32::MAX,
        LogRecord::IndexPut(i, p) => i.len() <= u32::MAX && p.len() <= u32::MAX,
        LogRecord::IndexDelete(i) => i.len() <= u32::MAX,
    }
}

fn push_u32(out: &mut Vec<u8>, n: u32)
    ensures
        final(out)@ == old(out)@ + u32_le(n),
{
    out.push((n % 256) as u8);
    out.push(((n / 256) % 256) as u8);
    out.push(((n / 65536) % 256) as u8);
    out.push(((n / 16777216) % 256) as u8);
    assert(out@ =~= old(out)@ + u32_le(n));
}

fn push_bytes(out: &mut Vec<u8>, s: &[u8])
    ensures
        final(out)@ == old(out)@ + s@,
{
    let mut i: usize = 0;
    while i < s.len()
        invariant
            i <= s@.len(),
            out@ == old(out)@ + s@.take(i as int),
        decreases s@.len() - i,
    {
        out.push(s[i]);
        i = i + 1;
        assert(out@ =~= old(out)@ + s@.take(i as int));
    }
    assert(s@.take(i as int) =~= s@);
}

/// The bytes that record putting `value` under `key`.
pub fn encode_put(key: &[u8], value: &[u8]) -> (out: Vec<u8>)
    ensures
        out@ == record_bytes(LogRecord::Put(key@, value@)),
{
    let mut out: Vec<u8> = Vec::new();
    out.push(1u8);
    push_u32(&mut out, key.len() as u32);
    push_u32(&mut out, value.len() as u32);
    push_bytes(&mut out, key);
    push_bytes(&mut out, value);
    assert(out@ =~= record_bytes(LogRecord::Put(key@, value@)));
    out
}

/// The bytes that record removing `key`.
pub fn encode_delete(key: &[u8]) -> (out: Vec<u8>)
    ensures
        out@ == record_bytes(LogRecord::Delete(key@)),
{
    let mut out: Vec<u8> = Vec::new();
    out.push(2u8);
    push_u32(&mut out, key.len() as u32);
    push_bytes(&mut out, key);
    assert(out@ =~= record_bytes(LogRecord::Delete(key@)));
    out
}

/// The bytes that record pointing `index_key` to `primary_key`.
pub fn encode_index_put(index_key: &[u8], primary_key: &[u8]) -> (out: Vec<u8>)
    ensures
        out@ == record_bytes(LogRecord::IndexPut(index_key@, primary_key@)),
{
    let mut out: Vec<u8> = Vec::new();
    out.push(3u8);
    push_u32(&mut out, index_key.len() as u32);
    push_u32(&mut out, primary_key.len() as u32);
    push_bytes(&mut out, index_key);
    push_bytes(&mut out, primary_key);
    assert(out@ =~= record_bytes(LogRecord::IndexPut(index_key@, primary_key@)));
    out
}

/// The bytes that record removing `index_key`.
pub fn encode_index_delete(index_key: &[u8]) -> (out: Vec<u8>)
    ensures
        out@ == record_bytes(LogRecord::IndexDelete(index_key@)),
{
    let mut out: Vec<u8> = Vec::new();
    out.push(4u8);
    push_u32(&mut out, index_key.len() as u32);
    push_bytes(&mut out, index_key);
    assert(out@ =~= record_bytes(LogRecord::IndexDelete(index_key@)));
    out
}

/// The records of a vector of log entries.
pub open spec fn records(v: Seq<WALEntry>) -> Seq<LogRecord> {
    v.map_values(|e: WALEntry| e@)
}

/// Puts already read records in front of the rest of a parse.
pub open spec fn prepend_records(rs: Seq<LogRecord>, rest: ParsedLog) -> ParsedLog {
    (rs + rest.0, rest.1)
}

fn read_u32_at(data: &[u8], off: usize) -> (n: u32)
    requires
        off + 4 <= data@.len(),
    ensures
        n == read_u32(data@, off as int),
{
    data[off] as u32 + data[off + 1] as u32 * 256 + data[off + 2] as u32 * 65536 + data[off + 3] as u32
        * 16777216
}

fn copy_range(data: &[u8], start: usize, len: usize) -> (out: Vec<u8>)
    requires
        start + len <= data@.len(),
    ensures
        out@ == data@.subrange(start as int, start + len),
{
    let mut out: Vec<u8> = Vec::new();
    let n = data.len();
    let mut j: usize = 0;
    while j < len
        invariant
            n == data@.len(),
            start + len <= n,
            j <= len,
            out@ == data@.subrange(start as int, start + j),
        decreases len - j,
    {
        out.push(data[start + j]);
        j = j + 1;
        assert(out@ =~= data@.subrange(start as int, start + j));
    }
    out
}

/// The entries recorded in `data`, in order, and the error that stopped the
/// reading, if any. Reading stops at the end of the data or at an unknown
/// operation byte; a record cut short stops it with an error, and the
/// complete records before it are still handed out.
pub fn decode_log(data: &[u8]) -> (r: (Vec<WALEntry>, Option<WalError>))
    ensures
        (records(r.0@), r.1) == parse_log(data@, 0),
{
    let n = data.len();
    let mut entries: Vec<WALEntry> = Vec::new();
    let mut off: usize = 0;
    assert(prepend_records(seq![], parse_log(data@, 0)) == parse_log(data@, 0)) by {
        assert(Seq::<LogRecord>::empty() + parse_log(data@, 0).0 =~= parse_log(data@, 0).0);
    }
    while off < n
        invariant
            n == data@.len(),
            off <= n,
            parse_log(data@, 0) == prepend_records(records(entries@), parse_log(data@, off as int)),
        decreases n - off,
    {
        let op = data[off];
        let ghost before = records(entries@);
        let ghost start = off as int;
        let entry: WALEntry;
        if op == 1 || op == 3 {
            if n - off < 9 {
                proof {
                    assert(before + Seq::<LogRecord>::empty() =~= before);
                }
                return (entries, Some(WalError::Truncated));
            }
            let a_len = read_u32_at(data, off + 1) as usize;
            let b_len = read_u32_at(data, off + 5) as usize;
            let a_off = off + 9;
            if a_len > n - a_off {
                proof {
                    assert(before + Seq::<LogRecord>::empty() =~= before);
                }
                return (entries, Some(WalError::Truncated));
            }
            let b_off = a_off + a_len;
            if b_len > n - b_off {
                proof {
                    assert(before + Seq::<LogRecord>::empty() =~= before);
                }
                return (entries, Some(WalError::Truncated));
            }
            let a = copy_range(data, a_off, a_len);
            let b = copy_range(data, b_off, b_len);
            off = b_off + b_len;
            entry = if op == 1 { WALEntry::Put(a, b) } else { WALEntry::IndexPut(a, b) };
        } else if op == 2 || op == 4 {
            if n - off < 5 {
                proof {
                    assert(before + Seq::<LogRecord>::empty() =~= before);
                }
                return (entries, Some(WalError::Truncated));
            }
            let a_len = read_u32_at(data, off + 1) as usize;
            let a_off = off + 5;
            if a_len > n - a_off {
                proof {
                    assert(before + Seq::<LogRecord>::empty() =~= before);
                }
                return (entries, Some(WalError::Truncated));
            }
            let a = copy_range(data, a_off, a_len);
            off = a_off + a_len;
            entry = if op == 2 { WALEntry::Delete(a) } else { WALEntry::IndexDelete(a) };
        } else {
            proof {
                assert(before + Seq::<LogRecord>::empty() =~= before);
            }
            return (entries, None);
        }
        proof {
            assert(parse_log(data@, start) == prepend_record(entry@, parse_log(data@, off as int)));
            let xs = parse_log(data@, off as int).0;
            assert(before + (seq![entry@] + xs) =~= before.push(entry@) + xs);
        }
        entries.push(entry);
        proof {
            assert(records(entries@) =~= before.push(entry@));
        }
    }
    proof {
        assert(records(entries@) + Seq::<LogRecord>::empty() =~= records(entries@));
    }
    (entries, None)
}

proof fn lemma_u32_roundtrip(data: Seq<u8>, off: int, n: u32)
    requires
        0 <= off,
        off + 4 <= data.len(),
        data.subrange(off, off + 4) == u32_le(n),
    ensures
        read_u32(data, off) == n,
{
    let s = data.subrange(off, off + 4);
    assert(data[off] == s[0] && data[off + 1] == s[1] && data[off + 2] == s[2] && data[off + 3] == s[3]);
    assert(n == (n % 256) + ((n / 256) % 256) * 256 + ((n / 65536) % 256) * 65536 + ((n / 16777216) % 256)
        * 16777216) by (nonlinear_arith);
}

/// The encoding distributes over concatenation of record sequences.
pub proof fn lemma_log_bytes_concat(a: Seq<LogRecord>, b: Seq<LogRecord>)
    ensures
        log_bytes(a + b) == log_bytes(a) + log_bytes(b),
    decreases a.len(),
{
    if a.len() == 0 {
        assert(a + b =~= b);
        assert(log_bytes(a) + log_bytes(b) =~= log_bytes(b));
    } else {
        assert((a + b).drop_first() =~= a.drop_first() + b);
        lemma_log_bytes_concat(a.drop_first(), b);
        assert((a + b)[0] == a[0]);
        assert(log_bytes(a + b) =~= record_bytes(a[0]) + (log_bytes(a.drop_first()) + log_bytes(b)));
    }
}

proof fn lemma_bytes_at(data: Seq<u8>, off: int, s: Seq<u8>, start: int, len: int)
    requires
        0 <= off,
        0 <= start,
        0 <= len,
        start + len <= s.len(),
        off + s.len() <= data.len(),
        data.subrange(off, off + s.len()) == s,
    ensures
        data.subrange(off + start, off + start + len) == s.subrange(start, start + len),
{
    assert forall|i: int| 0 <= i < len implies #[trigger] data.subrange(off + start, off + start + len)[i]
        == s.subrange(start, start + len)[i] by {
        assert(data.subrange(off, off + s.len())[start + i] == s[start + i]);
    }
    assert(data.subrange(off + start, off + start + len) =~= s.subrange(start, start + len));
}

proof fn lemma_parse_two_field_record(data: Seq<u8>, off: int, r: LogRecord)
    requires
        r is Put || r is IndexPut,
        record_fits(r),
        0 <= off,
        off + record_bytes(r).len() <= data.len(),
        data.subrange(off, off + record_bytes(r).len()) == record_bytes(r),
    ensures
        parse_log(data, off) == prepend_record(r, parse_log(data, off + record_bytes(r).len())),
{
    let rb = record_bytes(r);
    let (a, b) = match r {
        LogRecord::Put(a, b) => (a, b),
        LogRecord::IndexPut(a, b) => (a, b),
        _ => (seq![], seq![]),
    };
    let la = a.len() as int;
    let lb = b.len() as int;
    assert(rb == seq![rb[0]] + u32_le(len32(a)) + u32_le(len32(b)) + a + b);
    assert(data[off] == rb[0]) by {
        assert(data.subrange(off, off + rb.len())[0] == rb[0]);
    }
    lemma_bytes_at(data, off, rb, 1, 4);
    assert(rb.subrange(1, 5) =~= u32_le(len32(a)));
    lemma_bytes_at(data, off, rb, 5, 4);
    assert(rb.subrange(5, 9) =~= u32_le(len32(b)));
    lemma_u32_roundtrip(data, off + 1, len32(a));
    lemma_u32_roundtrip(data, off + 5, len32(b));
    lemma_bytes_at(data, off, rb, 9, la);
    assert(rb.subrange(9, 9 + la) =~= a);
    lemma_bytes_at(data, off, rb, 9 + la, lb);
    assert(rb.subrange(9 + la, 9 + la + lb) =~= b);
}

proof fn lemma_parse_one_field_record(data: Seq<u8>, off: int, r: LogRecord)
    requires
        r is Delete || r is IndexDelete,
        record_fits(r),
        0 <= off,
        off + record_bytes(r).len() <= data.len(),
        data.subrange(off, off + record_bytes(r).len()) == record_bytes(r),
    ensures
        parse_log(data, off) == prepend_record(r, parse_log(data, off + record_bytes(r).len())),
{
    let rb = record_bytes(r);
    let a = match r {
        LogRecord::Delete(a) => a,
        LogRecord::IndexDelete(a) => a,
        _ => seq![],
    };
    let la = a.len() as int;
    assert(rb == seq![rb[0]] + u32_le(len32(a)) + a);
    assert(data[off] == rb[0]) by {
        assert(data.subrange(off, off + rb.len())[0] == rb[0]);
    }
    lemma_bytes_at(data, off, rb, 1, 4);
    assert(rb.subrange(1, 5) =~= u32_le(len32(a)));
    lemma_u32_roundtrip(data, off + 1, len32(a));
    lemma_bytes_at(data, off, rb, 5, la);
    assert(rb.subrange(5, 5 + la) =~= a);
}

/// Reading back the bytes of records whose fields are shorter than 2^32
/// bytes gives those records.
pub proof fn lemma_log_roundtrip(data: Seq<u8>, off: int, rs: Seq<LogRecord>)
    requires
        0 <= off <= data.len(),
        data.subrange(off, data.len() as int) == log_bytes(rs),
        forall|i: int| 0 <= i < rs.len() ==> record_fits(#[trigger] rs[i]),
    ensures
        parse_log(data, off) == (rs, None::<WalError>),
    decreases rs.len(),
{
    if rs.len() > 0 {
        let r = rs[0];
        let rb = record_bytes(r);
        let rest = log_bytes(rs.drop_first());
        assert(log_bytes(rs) == rb + rest);
        assert(record_fits(r));
        let end = off + rb.len();
        lemma_bytes_at(data, off, rb + rest, 0, rb.len() as int);
        assert((rb + rest).subrange(0, rb.len() as int) =~= rb);
        lemma_bytes_at(data, off, rb + rest, rb.len() as int, rest.len() as int);
        assert((rb + rest).subrange(rb.len() as int, (rb + rest).len() as int) =~= rest);
        assert forall|i: int| 0 <= i < rs.drop_first().len() implies record_fits(#[trigger] rs.drop_first()[i]) by {
            assert(rs.drop_first()[i] == rs[i + 1]);
        }
        lemma_log_roundtrip(data, end, rs.drop_first());
        if r is Put || r is IndexPut {
            lemma_parse_two_field_record(data, off, r);
        } else {
            lemma_parse_one_field_record(data, off, r);
        }
        assert(seq![r] + rs.drop_first() =~= rs);
    } else {
        assert(rs =~= Seq::<LogRecord>::empty());
        assert(data.subrange(off, data.len() as int).len() == 0);
    }
}

/// Reading back a whole log written record by record gives the records.
pub proof fn lemma_decode_written_log(rs: Seq<LogRecord>)
    requires
        forall|i: int| 0 <= i < rs.len() ==> record_fits(#[trigger] rs[i]),
    ensures
        parse_log(log_bytes(rs), 0) == (rs, None::<WalError>),
{
    assert(log_bytes(rs).subrange(0, log_bytes(rs).len() as int) =~= log_bytes(rs));
    lemma_log_roundtrip(log_bytes(rs), 0, rs);
}

/// Reading complete records is followed by reading whatever comes after them.
pub proof fn lemma_parse_prefix(data: Seq<u8>, off: int, rs: Seq<LogRecord>)
    requires
        0 <= off,
        off + log_bytes(rs).len() <= data.len(),
        data.subrange(off, off + log_bytes(rs).len()) == log_bytes(rs),
        forall|i: int| 0 <= i < rs.len() ==> record_fits(#[trigger] rs[i]),
    ensures
        parse_log(data, off) == prepend_records(rs, parse_log(data, off + log_bytes(rs).len())),
    decreases rs.len(),
{
    if rs.len() == 0 {
        assert(Seq::<LogRecord>::empty() + parse_log(data, off).0 =~= parse_log(data, off).0);
    } else {
        let r = rs[0];
        let rb = record_bytes(r);
        let rest = log_bytes(rs.drop_first());
        assert(log_bytes(rs) == rb + rest);
        assert(record_fits(r));
        let end = off + rb.len();
        lemma_bytes_at(data, off, rb + rest, 0, rb.len() as int);
        assert((rb + rest).subrange(0, rb.len() as int) =~= rb);
        lemma_bytes_at(data, off, rb + rest, rb.len() as int, rest.len() as int);
        assert((rb + rest).subrange(rb.len() as int, (rb + rest).len() as int) =~= rest);
        assert forall|i: int| 0 <= i < rs.drop_first().len() implies record_fits(#[trigger] rs.drop_first()[i]) by {
            assert(rs.drop_first()[i] == rs[i + 1]);
        }
        lemma_parse_prefix(data, end, rs.drop_first());
        if r is Put || r is IndexPut {
            lemma_parse_two_field_record(data, off, r);
        } else {
            lemma_parse_one_field_record(data, off, r);
        }
        let tail = parse_log(data, off + log_bytes(rs).len());
        assert(seq![r] + (rs.drop_first() + tail.0) =~= rs + tail.0);
    }
}

/// A record cut short at the end of the data stops the reading with an
/// error and gives no record.
pub proof fn lemma_parse_torn_record(data: Seq<u8>, off: int, r: LogRecord, k: int)
    requires
        record_fits(r),
        0 < k < record_bytes(r).len(),
        0 <= off,
        off + k == data.len(),
        data.subrange(off, off + k) == record_bytes(r).take(k),
    ensures
        parse_log(data, off) == (Seq::<LogRecord>::empty(), Some(WalError::Truncated)),
{
    let rb = record_bytes(r);
    let t = rb.take(k);
    assert(data[off] == rb[0]) by {
        assert(data.subrange(off, off + k)[0] == t[0]);
    }
    match r {
        LogRecord::Put(a, b) | LogRecord::IndexPut(a, b) => {
            assert(rb == seq![rb[0]] + u32_le(len32(a)) + u32_le(len32(b)) + a + b);
            if k >= 9 {
                lemma_bytes_at(data, off, t, 1, 4);
                assert(t.subrange(1, 5) =~= u32_le(len32(a)));
                lemma_bytes_at(data, off, t, 5, 4);
                assert(t.subrange(5, 9) =~= u32_le(len32(b)));
                lemma_u32_roundtrip(data, off + 1, len32(a));
                lemma_u32_roundtrip(data, off + 5, len32(b));
            }
        },
        LogRecord::Delete(a) | LogRecord::IndexDelete(a) => {
            assert(rb == seq![rb[0]] + u32_le(len32(a)) + a);
            if k >= 5 {
                lemma_bytes_at(data, off, t, 1, 4);
                assert(t.subrange(1, 5) =~= u32_le(len32(a)));
                lemma_u32_roundtrip(data, off + 1, len32(a));
            }
        },
    }
}

/// Appending a record to a written log adds it to what is read back.
pub proof fn lemma_append_record(rs: Seq<LogRecord>, r: LogRecord)
    requires
        forall|i: int| 0 <= i < rs.len() ==> record_fits(#[trigger] rs[i]),
        record_fits(r),
    ensures
        parse_log(log_bytes(rs) + record_bytes(r), 0) == (rs.push(r), None::<WalError>),
{
    let one = seq![r];
    lemma_log_bytes_concat(rs, one);
    assert(one.drop_first() =~= Seq::<LogRecord>::empty());
    assert(log_bytes(one.drop_first()) =~= Seq::<u8>::empty());
    assert(log_bytes(one) =~= record_bytes(r));
    assert(rs + one =~= rs.push(r));
    assert forall|i: int| 0 <= i < rs.push(r).len() implies record_fits(#[trigger] rs.push(r)[i]) by {
        if i < rs.len() {
            assert(rs.push(r)[i] == rs[i]);
        }
    }
    lemma_decode_written_log(rs.push(r));
}

/// A log whose last record was cut short (by a crash while it was being
/// written) reads back as the complete records before it, followed by an
/// error.
pub proof fn lemma_decode_torn_log(rs: Seq<LogRecord>, r: LogRecord, k: int)
    requires
        forall|i: int| 0 <= i < rs.len() ==> record_fits(#[trigger] rs[i]),
        record_fits(r),
        0 < k < record_bytes(r).len(),
    ensures
        parse_log(log_bytes(rs) + record_bytes(r).take(k), 0) == (rs, Some(WalError::Truncated)),
{
    let data = log_bytes(rs) + record_bytes(r).take(k);
    let l = log_bytes(rs).len() as int;
    assert(data.subrange(0, l) =~= log_bytes(rs));
    lemma_parse_prefix(data, 0, rs);
    assert(data.subrange(l, l + k) =~= record_bytes(r).take(k));
    lemma_parse_torn_record(data, l, r, k);
    assert(rs + Seq::<LogRecord>::empty() =~= rs);
}

/// The little-endian number of four bytes of `b` from `off`.
pub open spec fn le32_at(b: Seq<u8>, off: int) -> int {
    b[off] + 256 * b[off + 1] + 65536 * b[off + 2] + 16777216 * b[off + 3]
}

proof fn lemma_le32_of_u32_le(n: u32)
    ensures
        le32_at(u32_le(n), 0) == n,
{
    let s = u32_le(n);
    assert(n == (n % 256) + ((n / 256) % 256) * 256 + ((n / 65536) % 256) * 65536 + ((n / 16777216) % 256)
        * 16777216) by (nonlinear_arith);
    assert(s[0] == (n % 256) as u8 && s[1] == ((n / 256) % 256) as u8);
}

/// The layout of a record: its operation byte (1 put, 2 delete, 3 index put,
/// 4 index delete), the length of each field as four little-endian bytes,
/// then the fields in order.
pub proof fn lemma_record_layout(r: LogRecord)
    requires
        record_fits(r),
    ensures
        ({
            let b = record_bytes(r);
            match r {
                LogRecord::Put(k, v) | LogRecord::IndexPut(k, v) => {
                    &&& b.len() == 9 + k.len() + v.len()
                    &&& b[0] == (if r is Put { 1u8 } else { 3u8 })
                    &&& le32_at(b, 1) == k.len()
                    &&& le32_at(b, 5) == v.len()
                    &&& b.subrange(9, 9 + k.len() as int) == k
                    &&& b.subrange(9 + k.len() as int, b.len() as int) == v
                },
                LogRecord::Delete(k) | LogRecord::IndexDelete(k) => {
                    &&& b.len() == 5 + k.len()
                    &&& b[0] == (if r is Delete { 2u8 } else { 4u8 })
                    &&& le32_at(b, 1) == k.len()
                    &&& b.subrange(5, b.len() as int) == k
                },
            }
        }),
{
    let b = record_bytes(r);
    match r {
        LogRecord::Put(k, v) | LogRecord::IndexPut(k, v) => {
            let kl = k.len() as int;
            let p = u32_le(len32(k));
            let q = u32_le(len32(v));
            assert(b == seq![b[0]] + p + q + k + v);
            lemma_le32_of_u32_le(len32(k));
            lemma_le32_of_u32_le(len32(v));
            assert(b[1] == p[0] && b[2] == p[1] && b[3] == p[2] && b[4] == p[3]);
            assert(b[5] == q[0] && b[6] == q[1] && b[7] == q[2] && b[8] == q[3]);
            assert(b.subrange(9, 9 + kl) =~= k);
            assert(b.subrange(9 + kl, b.len() as int) =~= v);
        },
        LogRecord::Delete(k) | LogRecord::IndexDelete(k) => {
            let p = u32_le(len32(k));
            assert(b == seq![b[0]] + p + k);
            lemma_le32_of_u32_le(len32(k));
            assert(b[1] == p[0] && b[2] == p[1] && b[3] == p[2] && b[4] == p[3]);
            assert(b.subrange(5, b.len() as int) =~= k);
        },
    }
}

} // verus!
