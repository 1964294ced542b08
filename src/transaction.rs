//! The durable command log: a self-delimiting binary record per mutating
//! command, little-endian lengths of eight bytes.
use vstd::prelude::*;

use crate::codec::push_bytes;
use crate::storage::{replay, Keyspace, StorageCommand, StorageCommandView};
use crate::types::{Blob, Value, ValueView};
use vstd::slice::{slice_subrange, slice_to_vec};

verus! {

/// `256` to the power `n`.
pub open spec fn pow256(n: nat) -> nat
    decreases n,
{
    if n == 0 {
        1
    } else {
        256 * pow256((n - 1) as nat)
    }
}

/// The `n` little-endian bytes of `x`.
pub open spec fn le_bytes(x: nat, n: nat) -> Seq<u8>
    decreases n,
{
    if n == 0 {
        Seq::empty()
    } else {
        seq![(x % 256) as u8] + le_bytes(x / 256, (n - 1) as nat)
    }
}

/// The number that little-endian bytes spell.
pub open spec fn le_value(b: Seq<u8>) -> nat
    decreases b.len(),
{
    if b.len() == 0 {
        0
    } else {
        b[0] as nat + 256 * le_value(b.skip(1))
    }
}

/// A length field.
pub open spec fn len_field(n: nat) -> Seq<u8> {
    le_bytes(n, 8)
}

/// An integer field: the two's complement bytes of `i`.
pub open spec fn int_field(i: i64) -> Seq<u8> {
    le_bytes(
        (if i < 0 {
            i + pow256(8)
        } else {
            i as int
        }) as nat,
        8,
    )
}

/// The integer that eight two's complement bytes spell.
pub open spec fn int_of(b: Seq<u8>) -> i64 {
    let v = le_value(b);
    (if v >= pow256(8) / 2 {
        v - pow256(8)
    } else {
        v as int
    }) as i64
}

/// Record tag of an increment: `I`.
pub const TAG_INCR: u8 = 73;

/// Record tag of a decrement: `D`.
pub const TAG_DECR: u8 = 68;

/// Record tag of a store: `S`.
pub const TAG_SET: u8 = 83;

/// Record tag of a set insertion: `A`.
pub const TAG_SADD: u8 = 65;

/// Record tag of a set removal: `R`.
pub const TAG_SREM: u8 = 82;

/// Value tag of an integer in a store record: `I`.
pub const VALUE_INT: u8 = 73;

/// Value tag of a blob in a store record: `B`.
pub const VALUE_BLOB: u8 = 66;

/// Whether the log format can hold the command: a stored value is an
/// integer or a blob.
pub open spec fn loggable(c: StorageCommandView) -> bool {
    match c {
        StorageCommandView::Put(_, v) => v is Int || v is Blob,
        _ => true,
    }
}

/// Whether the command has a record of its own: a store, increment,
/// decrement, set insertion or set removal.
pub open spec fn has_record(c: StorageCommandView) -> bool {
    match c {
        StorageCommandView::Put(_, v) => v is Int || v is Blob,
        StorageCommandView::Incr(_) | StorageCommandView::Decr(_) | StorageCommandView::SetAdd(..)
        | StorageCommandView::SetRemove(..) => true,
        _ => false,
    }
}

/// The record of a command; empty for commands the format does not log.
pub open spec fn record_bytes(c: StorageCommandView) -> Seq<u8> {
    match c {
        StorageCommandView::Incr(k) => seq![TAG_INCR] + len_field(k.len()) + k,
        StorageCommandView::Decr(k) => seq![TAG_DECR] + len_field(k.len()) + k,
        StorageCommandView::Put(k, ValueView::Int(i)) => seq![TAG_SET] + len_field(k.len()) + k + seq![
            VALUE_INT,
        ] + int_field(i),
        StorageCommandView::Put(k, ValueView::Blob(b)) => seq![TAG_SET] + len_field(k.len()) + k + seq![
            VALUE_BLOB,
        ] + len_field(b.len()) + b,
        StorageCommandView::SetAdd(k, m) => seq![TAG_SADD] + len_field(k.len()) + k + len_field(m.len())
            + m,
        StorageCommandView::SetRemove(k, m) => seq![TAG_SREM] + len_field(k.len()) + k + len_field(
            m.len(),
        ) + m,
        _ => Seq::empty(),
    }
}

/// The records of a sequence of commands, one after another.
pub open spec fn log_bytes(cs: Seq<StorageCommandView>) -> Seq<u8>
    decreases cs.len(),
{
    if cs.len() == 0 {
        Seq::empty()
    } else {
        log_bytes(cs.drop_last()) + record_bytes(cs.last())
    }
}

/// What reading one record from the start of a log gives.
pub enum RecordRead {
    /// A command, and the number of bytes its record takes.
    Record(StorageCommandView, int),
    /// The log ends before the record does (or is empty).
    Truncated,
    /// A tag that the format does not have.
    Corrupt,
}

/// Reads the record at the start of `s`.
pub open spec fn read_record(s: Seq<u8>) -> RecordRead {
    if s.len() < 9 {
        RecordRead::Truncated
    } else {
        let klen = le_value(s.subrange(1, 9));
        let p: int = 9 + klen as int;
        if p > s.len() {
            RecordRead::Truncated
        } else {
            let key = s.subrange(9, p);
            if s[0] == TAG_INCR {
                RecordRead::Record(StorageCommandView::Incr(key), p)
            } else if s[0] == TAG_DECR {
                RecordRead::Record(StorageCommandView::Decr(key), p)
            } else if s[0] == TAG_SET {
                if p + 9 > s.len() {
                    RecordRead::Truncated
                } else if s[p] == VALUE_INT {
                    RecordRead::Record(
                        StorageCommandView::Put(key, ValueView::Int(int_of(s.subrange(p + 1, p + 9)))),
                        p + 9,
                    )
                } else if s[p] == VALUE_BLOB {
                    let vlen: int = le_value(s.subrange(p + 1, p + 9)) as int;
                    if p + 9 + vlen > s.len() {
                        RecordRead::Truncated
                    } else {
                        RecordRead::Record(
                            StorageCommandView::Put(
                                key,
                                ValueView::Blob(s.subrange(p + 9, p + 9 + vlen)),
                            ),
                            p + 9 + vlen,
                        )
                    }
                } else {
                    RecordRead::Corrupt
                }
            } else if s[0] == TAG_SADD || s[0] == TAG_SREM {
                if p + 8 > s.len() {
                    RecordRead::Truncated
                } else {
                    let mlen: int = le_value(s.subrange(p, p + 8)) as int;
                    if p + 8 + mlen > s.len() {
                        RecordRead::Truncated
                    } else {
                        let member = s.subrange(p + 8, p + 8 + mlen);
                        RecordRead::Record(
                            if s[0] == TAG_SADD {
                                StorageCommandView::SetAdd(key, member)
                            } else {
                                StorageCommandView::SetRemove(key, member)
                            },
                            p + 8 + mlen,
                        )
                    }
                }
            } else {
                RecordRead::Corrupt
            }
        }
    }
}

/// Why a log could not be read back.
#[derive(Debug, PartialEq, Eq, Structural)]
pub enum TransactionLogError {
    /// A record carries a tag that the format does not have.
    Corrupted,
    /// The log file could not be read or written.
    Failed,
}

/// The commands that a log holds, in order: reading stops cleanly where the
/// log ends, also in the middle of a record, and fails at a corrupt record.
pub open spec fn read_log(s: Seq<u8>) -> Result<Seq<StorageCommandView>, TransactionLogError>
    decreases s.len(),
{
    match read_record(s) {
        RecordRead::Truncated => Ok(Seq::empty()),
        RecordRead::Corrupt => Err(TransactionLogError::Corrupted),
        RecordRead::Record(c, n) => if 0 < n <= s.len() {
            match read_log(s.skip(n)) {
                Ok(rest) => Ok(seq![c] + rest),
                Err(e) => Err(e),
            }
        } else {
            Ok(Seq::empty())
        },
    }
}


/// Little-endian bytes spell a number under `256` to the power of their
/// count.
pub proof fn lemma_le_value_bound(b: Seq<u8>)
    ensures
        le_value(b) < pow256(b.len()),
    decreases b.len(),
{
    if b.len() > 0 {
        lemma_le_value_bound(b.skip(1));
        assert(pow256(b.len()) == 256 * pow256(b.skip(1).len()));
    }
}

/// Reading back the little-endian bytes of a number that fits gives the
/// number.
pub proof fn lemma_le_round_trip(x: nat, n: nat)
    requires
        x < pow256(n),
    ensures
        le_bytes(x, n).len() == n,
        le_value(le_bytes(x, n)) == x,
    decreases n,
{
    if n > 0 {
        assert(x / 256 < pow256((n - 1) as nat)) by (nonlinear_arith)
            requires
                x < 256 * pow256((n - 1) as nat),
        ;
        lemma_le_round_trip(x / 256, (n - 1) as nat);
        let b = le_bytes(x, n);
        assert(b.skip(1) =~= le_bytes(x / 256, (n - 1) as nat));
        assert(x % 256 + 256 * (x / 256) == x) by (nonlinear_arith);
    }
}

/// Appends the `n` little-endian bytes of `x`.
fn push_le(out: &mut Vec<u8>, x: u64, n: usize)
    ensures
        final(out)@ == old(out)@ + le_bytes(x as nat, n as nat),
    decreases n,
{
    if n == 0 {
        assert(out@ =~= old(out)@ + le_bytes(x as nat, 0));
        return;
    }
    out.push((x % 256) as u8);
    push_le(out, x / 256, n - 1);
    assert(out@ =~= old(out)@ + le_bytes(x as nat, n as nat));
}

/// Reads `n` little-endian bytes at `pos`.
fn read_le(buf: &[u8], pos: usize, n: usize) -> (r: u64)
    requires
        n <= 8,
        pos + n <= buf.len(),
    ensures
        r == le_value(buf@.subrange(pos as int, pos + n)),
    decreases n,
{
    if n == 0 {
        return 0;
    }
    let rest = read_le(buf, pos + 1, n - 1);
    let ghost part = buf@.subrange(pos as int, pos + n);
    assert(part.skip(1) =~= buf@.subrange(pos + 1, pos + n));
    proof {
        lemma_le_value_bound(buf@.subrange(pos + 1, pos + n));
        lemma_pow256_values();
        lemma_pow256_mono((n - 1) as nat, 7);
    }
    buf[pos] as u64 + 256 * rest
}

/// The powers of 256 that eight-byte fields meet.
pub proof fn lemma_pow256_values()
    ensures
        pow256(7) == 72057594037927936,
        pow256(8) == 18446744073709551616,
{
    assert(pow256(0) == 1);
    assert(pow256(1) == 256);
    assert(pow256(2) == 65536);
    assert(pow256(3) == 16777216);
    assert(pow256(4) == 4294967296);
    assert(pow256(5) == 1099511627776);
    assert(pow256(6) == 281474976710656);
    assert(pow256(7) == 72057594037927936);
    assert(pow256(8) == 18446744073709551616);
}

/// Powers of 256 grow with the exponent.
pub proof fn lemma_pow256_mono(a: nat, b: nat)
    requires
        a <= b,
    ensures
        pow256(a) <= pow256(b),
    decreases b - a,
{
    if a < b {
        lemma_pow256_mono(a, (b - 1) as nat);
    }
}

/// Appends a length field.
fn push_len(out: &mut Vec<u8>, n: usize)
    ensures
        final(out)@ == old(out)@ + len_field(n as nat),
{
    push_le(out, n as u64, 8);
}

/// Appends the record of `cmd`, if the format logs it.
pub fn write_to_log(out: &mut Vec<u8>, cmd: &StorageCommand)
    requires
        loggable(cmd@),
    ensures
        final(out)@ == old(out)@ + record_bytes(cmd@),
{
    match cmd {
        StorageCommand::Incr(key) => {
            out.push(TAG_INCR);
            push_len(out, key.0.len());
            push_bytes(out, key.0.as_slice());
        },
        StorageCommand::Decr(key) => {
            out.push(TAG_DECR);
            push_len(out, key.0.len());
            push_bytes(out, key.0.as_slice());
        },
        StorageCommand::Put(key, value) => {
            out.push(TAG_SET);
            push_len(out, key.0.len());
            push_bytes(out, key.0.as_slice());
            match value {
                Value::Int(i) => {
                    out.push(VALUE_INT);
                    let bits: u64 = if *i < 0 {
                        ((*i - i64::MIN) as u64) + 9223372036854775808u64
                    } else {
                        *i as u64
                    };
                    proof {
                        lemma_pow256_values();
                    }
                    push_le(out, bits, 8);
                },
                Value::Blob(b) => {
                    out.push(VALUE_BLOB);
                    push_len(out, b.0.len());
                    push_bytes(out, b.0.as_slice());
                },
                _ => {},
            }
        },
        StorageCommand::SetAdd(key, member) => {
            out.push(TAG_SADD);
            push_len(out, key.0.len());
            push_bytes(out, key.0.as_slice());
            push_len(out, member.0.len());
            push_bytes(out, member.0.as_slice());
        },
        StorageCommand::SetRemove(key, member) => {
            out.push(TAG_SREM);
            push_len(out, key.0.len());
            push_bytes(out, key.0.as_slice());
            push_len(out, member.0.len());
            push_bytes(out, member.0.as_slice());
        },
        _ => {},
    }
    assert(out@ =~= old(out)@ + record_bytes(cmd@));
}

/// The records of a batch of commands, in order.
pub fn encode_batch(cmds: &Vec<StorageCommand>) -> (r: Vec<u8>)
    requires
        forall|i: int| 0 <= i < cmds.len() ==> loggable(#[trigger] cmds@[i]@),
    ensures
        r@ == log_bytes(cmds@.map_values(|c: StorageCommand| c@)),
{
    let ghost views = cmds@.map_values(|c: StorageCommand| c@);
    let mut out: Vec<u8> = Vec::new();
    let mut i: usize = 0;
    while i < cmds.len()
        invariant
            0 <= i <= cmds.len(),
            views == cmds@.map_values(|c: StorageCommand| c@),
            forall|j: int| 0 <= j < cmds.len() ==> loggable(#[trigger] cmds@[j]@),
            out@ == log_bytes(views.take(i as int)),
        decreases cmds.len() - i,
    {
        write_to_log(&mut out, &cmds[i]);
        assert(views.take(i + 1).drop_last() =~= views.take(i as int));
        i = i + 1;
    }
    assert(views.take(i as int) =~= views);
    out
}


/// Reads a length field at `pos` and checks that `avail` bytes cover it.
fn read_len(buf: &[u8], pos: usize, avail: usize) -> (r: Option<usize>)
    requires
        pos + 8 <= buf.len(),
    ensures
        r matches Some(n) ==> n == le_value(buf@.subrange(pos as int, pos + 8)) && n <= avail,
        r is None ==> le_value(buf@.subrange(pos as int, pos + 8)) > avail,
{
    let n = read_le(buf, pos, 8);
    if n > avail as u64 {
        None
    } else {
        Some(n as usize)
    }
}

/// Reads the record at the start of `buf`: the command and the bytes its
/// record takes; `None` where the log ends before the record does.
pub fn next_record(buf: &[u8]) -> (r: Result<Option<(StorageCommand, usize)>, TransactionLogError>)
    ensures
        r matches Ok(Some((c, n))) ==> read_record(buf@) == RecordRead::Record(c@, n as int) && c.wf(),
        r matches Ok(None) ==> read_record(buf@) == RecordRead::Truncated,
        r is Err ==> read_record(buf@) == RecordRead::Corrupt && r == Err::<
            Option<(StorageCommand, usize)>,
            TransactionLogError,
        >(TransactionLogError::Corrupted),
{
    let ghost s = buf@;
    if buf.len() < 9 {
        return Ok(None);
    }
    let klen = match read_len(buf, 1, buf.len() - 9) {
        Some(n) => n,
        None => {
            return Ok(None);
        },
    };
    let p = 9 + klen;
    let key = Blob(slice_to_vec(slice_subrange(buf, 9, p)));
    let tag = buf[0];
    if tag == TAG_INCR {
        Ok(Some((StorageCommand::Incr(key), p)))
    } else if tag == TAG_DECR {
        Ok(Some((StorageCommand::Decr(key), p)))
    } else if tag == TAG_SET {
        if buf.len() - p < 9 {
            return Ok(None);
        }
        if buf[p] == VALUE_INT {
            let bits = read_le(buf, p + 1, 8);
            proof {
                lemma_pow256_values();
            }
            let v: i64 = if bits >= 9223372036854775808u64 {
                ((bits - 9223372036854775808u64) as i64) + i64::MIN
            } else {
                bits as i64
            };
            Ok(Some((StorageCommand::Put(key, Value::Int(v)), p + 9)))
        } else if buf[p] == VALUE_BLOB {
            let vlen = match read_len(buf, p + 1, buf.len() - p - 9) {
                Some(n) => n,
                None => {
                    return Ok(None);
                },
            };
            let value = Blob(slice_to_vec(slice_subrange(buf, p + 9, p + 9 + vlen)));
            Ok(Some((StorageCommand::Put(key, Value::Blob(value)), p + 9 + vlen)))
        } else {
            Err(TransactionLogError::Corrupted)
        }
    } else if tag == TAG_SADD || tag == TAG_SREM {
        if buf.len() - p < 8 {
            return Ok(None);
        }
        let mlen = match read_len(buf, p, buf.len() - p - 8) {
            Some(n) => n,
            None => {
                return Ok(None);
            },
        };
        let member = Blob(slice_to_vec(slice_subrange(buf, p + 8, p + 8 + mlen)));
        let cmd = if tag == TAG_SADD {
            StorageCommand::SetAdd(key, member)
        } else {
            StorageCommand::SetRemove(key, member)
        };
        Ok(Some((cmd, p + 8 + mlen)))
    } else {
        Err(TransactionLogError::Corrupted)
    }
}

/// `read_log` with the commands before `s` put in front.
pub open spec fn prefixed(before: Seq<StorageCommandView>, r: Result<Seq<StorageCommandView>, TransactionLogError>) -> Result<Seq<StorageCommandView>, TransactionLogError> {
    match r {
        Ok(rest) => Ok(before + rest),
        Err(e) => Err(e),
    }
}

/// Reads every command of a log, in order. Reading stops cleanly where the
/// log ends, also in the middle of a record; a corrupt record fails it.
pub fn decode_log(buf: &[u8]) -> (r: Result<Vec<StorageCommand>, TransactionLogError>)
    ensures
        r matches Ok(cs) ==> read_log(buf@) == Ok::<Seq<StorageCommandView>, TransactionLogError>(
            cs@.map_values(|c: StorageCommand| c@),
        ) && forall|i: int| 0 <= i < cs.len() ==> (#[trigger] cs@[i]).wf(),
        r matches Err(e) ==> read_log(buf@) == Err::<Seq<StorageCommandView>, TransactionLogError>(e),
{
    let mut cmds: Vec<StorageCommand> = Vec::new();
    let mut pos: usize = 0;
    proof {
        assert(buf@.skip(0) =~= buf@);
        assert(cmds@.map_values(|c: StorageCommand| c@) =~= Seq::<StorageCommandView>::empty());
        match read_log(buf@) {
            Ok(t) => {
                assert(Seq::<StorageCommandView>::empty() + t =~= t);
            },
            Err(_) => {},
        }
    }
    loop
        invariant
            pos <= buf.len(),
            read_log(buf@) == prefixed(cmds@.map_values(|c: StorageCommand| c@), read_log(buf@.skip(pos as int))),
            forall|i: int| 0 <= i < cmds.len() ==> (#[trigger] cmds@[i]).wf(),
        decreases buf.len() - pos,
    {
        let rest = slice_subrange(buf, pos, buf.len());
        assert(rest@ =~= buf@.skip(pos as int));
        match next_record(rest) {
            Err(e) => {
                return Err(e);
            },
            Ok(None) => {
                assert(cmds@.map_values(|c: StorageCommand| c@) + Seq::<StorageCommandView>::empty() =~= cmds@.map_values(|c: StorageCommand| c@));
                return Ok(cmds);
            },
            Ok(Some((c, n))) => {
                assert(0 < n <= rest.len()) by {
                    let s = rest@;
                    assert(s.len() >= 9);
                }
                let ghost before = cmds@.map_values(|c: StorageCommand| c@);
                let ghost cv = c@;
                assert(rest@.skip(n as int) =~= buf@.skip(pos + n));
                cmds.push(c);
                assert(cmds@.map_values(|c: StorageCommand| c@) =~= before.push(cv));
                proof {
                    match read_log(buf@.skip(pos + n)) {
                        Ok(tail) => {
                            assert(before + (seq![cv] + tail) =~= before.push(cv) + tail);
                        },
                        Err(_) => {},
                    }
                }
                pos = pos + n;
            },
        }
    }
}


/// Whether every byte string in the command has a length that a length
/// field holds.
pub open spec fn fits(c: StorageCommandView) -> bool {
    match c {
        StorageCommandView::Incr(k) => k.len() < pow256(8),
        StorageCommandView::Decr(k) => k.len() < pow256(8),
        StorageCommandView::Put(k, ValueView::Blob(b)) => k.len() < pow256(8) && b.len() < pow256(8),
        StorageCommandView::Put(k, _) => k.len() < pow256(8),
        StorageCommandView::SetAdd(k, m) => k.len() < pow256(8) && m.len() < pow256(8),
        StorageCommandView::SetRemove(k, m) => k.len() < pow256(8) && m.len() < pow256(8),
        _ => true,
    }
}

/// An integer field reads back as the integer.
pub proof fn lemma_int_field(i: i64)
    ensures
        int_field(i).len() == 8,
        int_of(int_field(i)) == i,
{
    lemma_pow256_values();
    let u: int = if i < 0 {
        i + pow256(8)
    } else {
        i as int
    };
    lemma_le_round_trip(u as nat, 8);
}

/// A record, whatever follows it, reads back as its command.
pub proof fn lemma_read_record(c: StorageCommandView, rest: Seq<u8>)
    requires
        has_record(c),
        fits(c),
    ensures
        read_record(record_bytes(c) + rest) == RecordRead::Record(c, record_bytes(c).len() as int),
{
    let s = record_bytes(c) + rest;
    match c {
        StorageCommandView::Incr(k) => {
            lemma_le_round_trip(k.len(), 8);
            assert(s.subrange(1, 9) =~= len_field(k.len()));
            assert(s.subrange(9, 9 + k.len() as int) =~= k);
        },
        StorageCommandView::Decr(k) => {
            lemma_le_round_trip(k.len(), 8);
            assert(s.subrange(1, 9) =~= len_field(k.len()));
            assert(s.subrange(9, 9 + k.len() as int) =~= k);
        },
        StorageCommandView::Put(k, ValueView::Int(i)) => {
            lemma_le_round_trip(k.len(), 8);
            lemma_int_field(i);
            let p: int = 9 + k.len() as int;
            assert(s.subrange(1, 9) =~= len_field(k.len()));
            assert(s.subrange(9, p) =~= k);
            assert(s[p] == VALUE_INT);
            assert(s.subrange(p + 1, p + 9) =~= int_field(i));
        },
        StorageCommandView::Put(k, ValueView::Blob(b)) => {
            lemma_le_round_trip(k.len(), 8);
            lemma_le_round_trip(b.len(), 8);
            let p: int = 9 + k.len() as int;
            assert(s.subrange(1, 9) =~= len_field(k.len()));
            assert(s.subrange(9, p) =~= k);
            assert(s[p] == VALUE_BLOB);
            assert(s.subrange(p + 1, p + 9) =~= len_field(b.len()));
            assert(s.subrange(p + 9, p + 9 + b.len() as int) =~= b);
        },
        StorageCommandView::SetAdd(k, m) => {
            lemma_le_round_trip(k.len(), 8);
            lemma_le_round_trip(m.len(), 8);
            let p: int = 9 + k.len() as int;
            assert(s.subrange(1, 9) =~= len_field(k.len()));
            assert(s.subrange(9, p) =~= k);
            assert(s.subrange(p, p + 8) =~= len_field(m.len()));
            assert(s.subrange(p + 8, p + 8 + m.len() as int) =~= m);
        },
        StorageCommandView::SetRemove(k, m) => {
            lemma_le_round_trip(k.len(), 8);
            lemma_le_round_trip(m.len(), 8);
            let p: int = 9 + k.len() as int;
            assert(s.subrange(1, 9) =~= len_field(k.len()));
            assert(s.subrange(9, p) =~= k);
            assert(s.subrange(p, p + 8) =~= len_field(m.len()));
            assert(s.subrange(p + 8, p + 8 + m.len() as int) =~= m);
        },
        _ => {},
    }
}

/// A log is its first record followed by the log of the rest.
pub proof fn lemma_log_bytes_front(cs: Seq<StorageCommandView>)
    requires
        cs.len() > 0,
    ensures
        log_bytes(cs) == record_bytes(cs[0]) + log_bytes(cs.skip(1)),
    decreases cs.len(),
{
    if cs.len() == 1 {
        assert(cs.drop_last() =~= Seq::<StorageCommandView>::empty());
        assert(cs.skip(1) =~= Seq::<StorageCommandView>::empty());
        assert(log_bytes(cs) =~= record_bytes(cs[0]) + log_bytes(cs.skip(1)));
    } else {
        lemma_log_bytes_front(cs.drop_last());
        assert(cs.drop_last().skip(1) =~= cs.skip(1).drop_last());
        assert(cs.skip(1).last() == cs.last());
        assert(log_bytes(cs) =~= record_bytes(cs[0]) + log_bytes(cs.skip(1)));
    }
}

/// A record cut short reads as the end of the log.
pub proof fn lemma_read_cut_record(c: StorageCommandView, j: int)
    requires
        has_record(c),
        fits(c),
        0 <= j < record_bytes(c).len(),
    ensures
        read_record(record_bytes(c).take(j)) == RecordRead::Truncated,
{
    let s = record_bytes(c).take(j);
    if j >= 9 {
        let r = record_bytes(c);
        assert(s.subrange(1, 9) =~= r.subrange(1, 9));
        lemma_read_record(c, Seq::empty());
        assert(r + Seq::<u8>::empty() =~= r);
        let klen = le_value(r.subrange(1, 9));
        let p: int = 9 + klen as int;
        if p <= j {
            if r[0] == TAG_SET && p + 9 <= j {
                assert(s.subrange(p + 1, p + 9) =~= r.subrange(p + 1, p + 9));
                assert(s[p] == r[p]);
            }
            if (r[0] == TAG_SADD || r[0] == TAG_SREM) && p + 8 <= j {
                assert(s.subrange(p, p + 8) =~= r.subrange(p, p + 8));
            }
        }
    }
}

/// Reading a log that starts with a whole record gives its command, then
/// what the rest reads as.
pub proof fn lemma_read_log_front(c: StorageCommandView, rest: Seq<u8>)
    requires
        has_record(c),
        fits(c),
    ensures
        read_log(record_bytes(c) + rest) == prefixed(seq![c], read_log(rest)),
{
    let r = record_bytes(c);
    lemma_read_record(c, rest);
    assert((r + rest).skip(r.len() as int) =~= rest);
}

/// Writing commands as records and reading the log back gives the same
/// commands.
pub proof fn law_log_round_trip(cs: Seq<StorageCommandView>)
    requires
        forall|i: int| 0 <= i < cs.len() ==> has_record(#[trigger] cs[i]) && fits(cs[i]),
    ensures
        read_log(log_bytes(cs)) == Ok::<Seq<StorageCommandView>, TransactionLogError>(cs),
    decreases cs.len(),
{
    if cs.len() == 0 {
        assert(log_bytes(cs) =~= Seq::<u8>::empty());
        assert(read_record(log_bytes(cs)) == RecordRead::Truncated);
        assert(cs =~= Seq::<StorageCommandView>::empty());
    } else {
        let tail = cs.skip(1);
        assert forall|i: int| 0 <= i < tail.len() implies has_record(#[trigger] tail[i]) && fits(tail[i]) by {
            assert(tail[i] == cs[i + 1]);
        }
        law_log_round_trip(tail);
        lemma_log_bytes_front(cs);
        assert(has_record(cs[0]) && fits(cs[0]));
        lemma_read_log_front(cs[0], log_bytes(tail));
        assert(seq![cs[0]] + tail =~= cs);
    }
}

/// A log whose last record is cut short reads back as the commands before
/// it: reading stops cleanly at the cut.
pub proof fn law_log_truncated_tail(cs: Seq<StorageCommandView>, c: StorageCommandView, j: int)
    requires
        forall|i: int| 0 <= i < cs.len() ==> has_record(#[trigger] cs[i]) && fits(cs[i]),
        has_record(c),
        fits(c),
        0 <= j < record_bytes(c).len(),
    ensures
        read_log(log_bytes(cs) + record_bytes(c).take(j)) == Ok::<Seq<StorageCommandView>, TransactionLogError>(cs),
    decreases cs.len(),
{
    let cut = record_bytes(c).take(j);
    if cs.len() == 0 {
        assert(log_bytes(cs) + cut =~= cut);
        lemma_read_cut_record(c, j);
        assert(cs =~= Seq::<StorageCommandView>::empty());
    } else {
        let tail = cs.skip(1);
        assert forall|i: int| 0 <= i < tail.len() implies has_record(#[trigger] tail[i]) && fits(tail[i]) by {
            assert(tail[i] == cs[i + 1]);
        }
        law_log_truncated_tail(tail, c, j);
        lemma_log_bytes_front(cs);
        assert(has_record(cs[0]) && fits(cs[0]));
        lemma_read_log_front(cs[0], log_bytes(tail) + cut);
        assert(record_bytes(cs[0]) + log_bytes(tail) + cut =~= record_bytes(cs[0]) + (log_bytes(tail) + cut));
        assert(seq![cs[0]] + tail =~= cs);
    }
}

/// The commands of a run that have a record.
pub open spec fn recorded(cs: Seq<StorageCommandView>) -> Seq<StorageCommandView> {
    cs.filter(|c: StorageCommandView| has_record(c))
}

/// The log of a run holds exactly the records of the commands that have
/// one, and replaying those commands gives the keyspace that the whole run
/// gave from the same start: the commands without a record change nothing.
pub proof fn law_replay_restores(m: Keyspace, cs: Seq<StorageCommandView>)
    requires
        forall|i: int| 0 <= i < cs.len() ==> loggable(#[trigger] cs[i]) && fits(cs[i]),
    ensures
        read_log(log_bytes(cs)) == Ok::<Seq<StorageCommandView>, TransactionLogError>(recorded(cs)),
        replay(m, recorded(cs)) == replay(m, cs),
{
    lemma_recorded(m, cs);
    law_log_round_trip(recorded(cs));
}

/// Induction behind `law_replay_restores`.
proof fn lemma_recorded(m: Keyspace, cs: Seq<StorageCommandView>)
    requires
        forall|i: int| 0 <= i < cs.len() ==> loggable(#[trigger] cs[i]) && fits(cs[i]),
    ensures
        log_bytes(cs) == log_bytes(recorded(cs)),
        replay(m, recorded(cs)) == replay(m, cs),
        forall|i: int| 0 <= i < recorded(cs).len() ==> has_record(#[trigger] recorded(cs)[i]) && fits(recorded(cs)[i]),
    decreases cs.len(),
{
    reveal(Seq::filter);
    if cs.len() == 0 {
        assert(recorded(cs) =~= cs);
    } else {
        let init = cs.drop_last();
        let last = cs.last();
        assert forall|i: int| 0 <= i < init.len() implies loggable(#[trigger] init[i]) && fits(init[i]) by {
            assert(init[i] == cs[i]);
        }
        lemma_recorded(m, init);
        assert(loggable(cs[cs.len() - 1]) && fits(cs[cs.len() - 1]));
        assert(recorded(cs) == if has_record(last) {
            recorded(init).push(last)
        } else {
            recorded(init)
        });
        if has_record(last) {
            assert(recorded(cs).drop_last() =~= recorded(init));
            assert forall|i: int| 0 <= i < recorded(cs).len() implies has_record(#[trigger] recorded(cs)[i]) && fits(recorded(cs)[i]) by {
                if i < recorded(init).len() {
                    assert(recorded(cs)[i] == recorded(init)[i]);
                }
            }
        } else {
            assert(record_bytes(last) =~= Seq::<u8>::empty());
            assert(log_bytes(cs) =~= log_bytes(init) + Seq::<u8>::empty());
        }
    }
}

/// The file that holds the current log, for a base path.
pub fn current_log_filename(base: &str) -> (r: String)
    ensures
        r@ == base@ + ".current"@,
{
    base.to_string().concat(".current")
}

} // verus!
