use vstd::prelude::*;

use crate::num::dec_i;
use crate::num::push_dec_i64;
use crate::store::Entry;
use crate::store::RedisValue;
use crate::store::ValueView;

verus! {

/// Why a snapshot could not be written or read back.
#[derive(PartialEq, Eq, Structural, Clone, Copy, Debug)]
pub enum RdbError {
    /// A length does not fit the on-disk length encoding.
    LengthTooLarge,
    /// The file does not begin with the expected magic bytes.
    BadMagic,
    /// The four version digits are not the supported ones.
    BadVersion,
    /// The stream ended in the middle of a record.
    Truncated,
    /// A record begins with an opcode the format does not define.
    UnknownOpcode,
    /// A length or string uses an encoding the format does not define.
    BadEncoding,
    /// A compressed string does not decompress.
    BadCompression,
    /// The trailing checksum does not match the stream.
    ChecksumMismatch,
}

/// The CRC64 of `data` seeded with `crc`, with the Jones coefficients the
/// snapshot format fixes: a function of its arguments alone.
pub uninterp spec fn crc64_of(crc: u64, data: Seq<u8>) -> u64;

/// Relies on crc64::crc64: the Jones-polynomial CRC64 over `data`, starting
/// from `crc`.
#[verifier::external_body]
fn crc64_checksum(crc: u64, data: &[u8]) -> (r: u64)
    ensures
        r == crc64_of(crc, data@),
{
    crc64::crc64(crc, data)
}

/// `count` little-endian bytes of `n`: lowest byte first.
pub open spec fn le_bytes(n: nat, count: nat) -> Seq<u8>
    decreases count,
{
    if count == 0 {
        Seq::empty()
    } else {
        seq![(n % 256) as u8] + le_bytes(n / 256, (count - 1) as nat)
    }
}

/// The number that a little-endian byte string denotes.
pub open spec fn le_value(s: Seq<u8>) -> nat
    decreases s.len(),
{
    if s.len() == 0 {
        0
    } else {
        (s[0] + 256 * le_value(s.drop_first())) as nat
    }
}

/// Reading little-endian bytes back gives the number, as long as it fits.
pub proof fn lemma_le_roundtrip(n: nat, count: nat)
    requires
        n < pow256(count),
    ensures
        le_value(le_bytes(n, count)) == n,
        le_bytes(n, count).len() == count,
    decreases count,
{
    if count > 0 {
        assert(pow256(count) == 256 * pow256((count - 1) as nat));
        assert(n / 256 < pow256((count - 1) as nat)) by (nonlinear_arith)
            requires
                n < 256 * pow256((count - 1) as nat),
        ;
        lemma_le_roundtrip(n / 256, (count - 1) as nat);
        assert(le_bytes(n, count).drop_first() =~= le_bytes(n / 256, (count - 1) as nat));
    }
}

/// 256 to the `count`.
pub open spec fn pow256(count: nat) -> nat
    decreases count,
{
    if count == 0 {
        1
    } else {
        256 * pow256((count - 1) as nat)
    }
}

/// A little-endian string denotes less than 256 to its length.
pub proof fn lemma_le_value_bound(s: Seq<u8>)
    ensures
        le_value(s) < pow256(s.len()),
    decreases s.len(),
{
    if s.len() > 0 {
        lemma_le_value_bound(s.drop_first());
        assert(le_value(s) == s[0] + 256 * le_value(s.drop_first()));
        assert(s[0] + 256 * le_value(s.drop_first()) < 256 * pow256((s.len() - 1) as nat))
            by (nonlinear_arith)
            requires
                s[0] < 256,
                le_value(s.drop_first()) < pow256((s.len() - 1) as nat),
        ;
    }
}

/// Appends `count` little-endian bytes of `n`.
fn push_le(out: &mut Vec<u8>, n: u64, count: usize)
    ensures
        final(out)@ == old(out)@ + le_bytes(n as nat, count as nat),
    decreases count,
{
    if count == 0 {
        proof {
            assert(out@ =~= old(out)@ + le_bytes(n as nat, 0));
        }
    } else {
        out.push((n % 256) as u8);
        push_le(out, n / 256, count - 1);
        proof {
            assert(out@ =~= old(out)@ + le_bytes(n as nat, count as nat));
        }
    }
}

/// Reads `count` little-endian bytes starting at `start`, for `count` up to
/// eight: the denoted number.
fn read_le(s: &[u8], start: usize, count: usize) -> (r: u64)
    requires
        start + count <= s@.len(),
        count <= 8,
    ensures
        r == le_value(s@.subrange(start as int, (start + count) as int)),
    decreases count,
{
    let ghost sub = s@.subrange(start as int, (start + count) as int);
    let l: usize = s.len();
    if count == 0 {
        0
    } else {
        let rest = read_le(s, start + 1, count - 1);
        proof {
            lemma_le_value_bound(sub.drop_first());
            lemma_pow256_le(count as nat);
            assert(sub.drop_first() =~= s@.subrange(start + 1, (start + count) as int));
            assert(sub[0] == s@[start as int]);
        }
        s[start] as u64 + 256 * rest
    }
}

/// The powers of 256 up to eight bytes, written out.
proof fn lemma_pow256_vals()
    ensures
        pow256(0) == 1,
        pow256(1) == 256,
        pow256(2) == 65536,
        pow256(3) == 16777216,
        pow256(4) == 4294967296,
        pow256(5) == 1099511627776,
        pow256(6) == 281474976710656,
        pow256(7) == 72057594037927936,
        pow256(8) == 18446744073709551616,
{
    assert(pow256(0) == 1);
    assert(pow256(1) == 256);
    assert(pow256(2) == 65536);
    assert(pow256(3) == 16777216);
    assert(pow256(4) == 4294967296);
    assert(pow256(5) == 1099511627776);
    assert(pow256(6) == 281474976710656);
    assert(pow256(7) == 72057594037927936);
    assert(pow256(8) == 18446744073709551616);
}

/// 256 to a count of at most eight fits beside a byte inside `u64`.
proof fn lemma_pow256_le(count: nat)
    requires
        1 <= count <= 8,
    ensures
        255 + 256 * (pow256((count - 1) as nat) - 1) <= u64::MAX,
    decreases count,
{
    assert(pow256(0) == 1);
    assert(pow256(1) == 256);
    assert(pow256(2) == 65536);
    assert(pow256(3) == 16777216);
    assert(pow256(4) == 4294967296);
    assert(pow256(5) == 1099511627776);
    assert(pow256(6) == 281474976710656);
    assert(pow256(7) == 72057594037927936);
    assert(pow256(8) == 18446744073709551616);
}

/// The on-disk length encoding: six bits in one byte, fourteen bits in two,
/// or a marker byte and four little-endian bytes; nothing for a length the
/// format cannot carry.
pub open spec fn rdb_len_bytes(n: u64) -> Seq<u8> {
    if n < 64 {
        seq![n as u8]
    } else if n < 16384 {
        seq![(64 + n / 256) as u8, (n % 256) as u8]
    } else if n < 4294967296 {
        seq![128u8] + le_bytes(n as nat, 4)
    } else {
        Seq::empty()
    }
}

/// A length-prefixed byte string as the snapshot writes it: the length
/// encoding, then the bytes themselves.
pub open spec fn str_bytes(b: Seq<u8>) -> Seq<u8> {
    rdb_len_bytes(b.len() as u64) + b
}

/// Writes the on-disk length encoding of `len`; refused exactly when the
/// format cannot carry it.
pub fn write_rdb_length(buf: &mut Vec<u8>, len: u64) -> (r: Result<(), RdbError>)
    ensures
        match r {
            Ok(()) => len < 4294967296 && final(buf)@ == old(buf)@ + rdb_len_bytes(len),
            Err(e) => e == RdbError::LengthTooLarge && len >= 4294967296 && final(buf)@ == old(
                buf,
            )@,
        },
{
    if len < 64 {
        buf.push(len as u8);
        proof {
            assert(buf@ =~= old(buf)@ + rdb_len_bytes(len));
        }
        Ok(())
    } else if len < 16384 {
        buf.push(64 + (len / 256) as u8);
        buf.push((len % 256) as u8);
        proof {
            assert(buf@ =~= old(buf)@ + rdb_len_bytes(len));
        }
        Ok(())
    } else if len < 4294967296 {
        buf.push(128);
        push_le(buf, len, 4);
        proof {
            assert(buf@ =~= old(buf)@ + rdb_len_bytes(len));
        }
        Ok(())
    } else {
        Err(RdbError::LengthTooLarge)
    }
}

/// Writes a length-prefixed byte string.
pub fn write_length_prefixed_bytes(buf: &mut Vec<u8>, bytes: &[u8]) -> (r: Result<(), RdbError>)
    ensures
        match r {
            Ok(()) => bytes@.len() < 4294967296 && final(buf)@ == old(buf)@ + str_bytes(bytes@),
            Err(e) => e == RdbError::LengthTooLarge && bytes@.len() >= 4294967296 && final(buf)@
                == old(buf)@,
        },
{
    match write_rdb_length(buf, bytes.len() as u64) {
        Ok(()) => {
            crate::frame::push_bytes(buf, bytes);
            proof {
                assert(buf@ =~= old(buf)@ + str_bytes(bytes@));
            }
            Ok(())
        },
        Err(e) => Err(e),
    }
}

/// A back-reference copy: `n` bytes read starting `start` positions into
/// what stands before the copy, byte by byte, so the copy may run over its
/// own output and a short pattern extends over itself.
pub open spec fn backcopy(base: Seq<u8>, start: nat, n: nat) -> Seq<u8>
    decreases n,
{
    if n == 0 {
        Seq::empty()
    } else {
        let prev = backcopy(base, start, (n - 1) as nat);
        prev.push((base + prev)[start + n - 1])
    }
}

/// A back-reference copy is as long as asked for.
proof fn lemma_backcopy_len(base: Seq<u8>, start: nat, n: nat)
    ensures
        backcopy(base, start, n).len() == n,
    decreases n,
{
    if n > 0 {
        lemma_backcopy_len(base, start, (n - 1) as nat);
    }
}

/// What the LZF stream at `i` with `out` already produced decompresses to:
/// a control byte below 32 is a literal run of one more than its value; any
/// other control byte is a back reference whose length sits in the top three
/// bits (7 meaning 7 plus a following byte) plus two, and whose offset is
/// the low five bits joined with the next byte, plus one.
pub open spec fn lzf_step(c: Seq<u8>, i: nat, out: Seq<u8>) -> Option<Seq<u8>>
    decreases c.len() - i,
{
    if i >= c.len() {
        Some(out)
    } else {
        let ctrl = c[i as int];
        if ctrl < 32 {
            let run = (ctrl + 1) as nat;
            if i + 1 + run > c.len() {
                None
            } else {
                lzf_step(c, i + 1 + run, out + c.subrange((i + 1) as int, (i + 1 + run) as int))
            }
        } else {
            let l3 = ctrl / 32;
            if l3 == 7 {
                if i + 2 >= c.len() {
                    None
                } else {
                    let reflen = (7 + c[i as int + 1] + 2) as nat;
                    let off = ((ctrl % 32) * 256 + c[i as int + 2] + 1) as nat;
                    if off > out.len() {
                        None
                    } else {
                        lzf_step(c, i + 3, out + backcopy(out, (out.len() - off) as nat, reflen))
                    }
                }
            } else {
                if i + 1 >= c.len() {
                    None
                } else {
                    let reflen = (l3 + 2) as nat;
                    let off = ((ctrl % 32) * 256 + c[i as int + 1] + 1) as nat;
                    if off > out.len() {
                        None
                    } else {
                        lzf_step(c, i + 2, out + backcopy(out, (out.len() - off) as nat, reflen))
                    }
                }
            }
        }
    }
}

/// What an LZF stream decompresses to, if it is well formed.
pub open spec fn lzf_decompress(c: Seq<u8>) -> Option<Seq<u8>> {
    lzf_step(c, 0, Seq::empty())
}

/// Decompresses an LZF stream; `expected_len` is the caller's size hint and
/// carries no authority. The answer is exactly what the format denotes, and
/// a malformed stream is refused.
pub fn lzf_decompress_fallback(compressed: &[u8], expected_len: usize) -> (r: Result<
    Vec<u8>,
    RdbError,
>)
    ensures
        match r {
            Ok(out) => lzf_decompress(compressed@) == Some(out@),
            Err(e) => e == RdbError::BadCompression && match lzf_decompress(compressed@) {
                Some(o) => o.len() > usize::MAX,
                None => true,
            },
        },
{
    let clen: usize = compressed.len();
    let mut output: Vec<u8> = Vec::new();
    let mut i: usize = 0;
    while i < compressed.len()
        invariant
            i <= clen,
            clen == compressed@.len(),
            lzf_step(compressed@, 0, Seq::empty()) == lzf_step(compressed@, i as nat, output@),
        decreases compressed@.len() - i,
    {
        let ctrl = compressed[i];
        i = i + 1;
        if ctrl < 32 {
            let run: usize = ctrl as usize + 1;
            if run > compressed.len() - i {
                return Err(RdbError::BadCompression);
            }
            if usize::MAX - output.len() < run {
                proof {
                    lzf_grows(compressed@, (i + run) as nat, output@ + compressed@.subrange(
                        i as int,
                        i + run,
                    ));
                }
                return Err(RdbError::BadCompression);
            }
            let ghost out0 = output@;
            proof {
                assert(out0 + compressed@.subrange(i as int, i as int) =~= out0);
            }
            let mut j: usize = 0;
            while j < run
                invariant
                    j <= run,
                    i + run <= clen,
                    clen == compressed@.len(),
                    output@ == out0 + compressed@.subrange(i as int, i + j),
                    output@.len() == out0.len() + j,
                decreases run - j,
            {
                output.push(compressed[i + j]);
                proof {
                    assert(out0 + compressed@.subrange(i as int, i + j + 1) =~= (out0
                        + compressed@.subrange(i as int, i + j)).push(compressed@[i + j]));
                }
                j = j + 1;
            }
            i = i + run;
        } else {
            let l3 = ctrl / 32;
            let reflen: usize = if l3 == 7 {
                if i >= compressed.len() {
                    return Err(RdbError::BadCompression);
                }
                let ext = compressed[i];
                i = i + 1;
                7 + ext as usize + 2
            } else {
                l3 as usize + 2
            };
            if i >= compressed.len() {
                return Err(RdbError::BadCompression);
            }
            let low = compressed[i];
            i = i + 1;
            let off: usize = (ctrl as usize % 32) * 256 + low as usize + 1;
            if off > output.len() {
                return Err(RdbError::BadCompression);
            }
            let start = output.len() - off;
            if usize::MAX - output.len() < reflen {
                proof {
                    lemma_backcopy_len(output@, start as nat, reflen as nat);
                    lzf_grows(compressed@, i as nat, output@ + backcopy(
                        output@,
                        start as nat,
                        reflen as nat,
                    ));
                }
                return Err(RdbError::BadCompression);
            }
            let ghost out0 = output@;
            proof {
                assert(backcopy(out0, start as nat, 0) =~= Seq::<u8>::empty());
                assert(out0 + backcopy(out0, start as nat, 0) =~= out0);
            }
            let mut j: usize = 0;
            while j < reflen
                invariant
                    j <= reflen,
                    start + off == out0.len(),
                    off >= 1,
                    output@ == out0 + backcopy(out0, start as nat, j as nat),
                    output@.len() == out0.len() + j,
                    out0.len() + reflen <= usize::MAX,
                decreases reflen - j,
            {
                let b = output[start + j];
                output.push(b);
                proof {
                    assert(backcopy(out0, start as nat, (j + 1) as nat) == backcopy(
                        out0,
                        start as nat,
                        j as nat,
                    ).push((out0 + backcopy(out0, start as nat, j as nat))[start + j]));
                }
                j = j + 1;
            }
        }
    }
    Ok(output)
}

/// A well-formed LZF stream never shrinks what it has produced, so output
/// longer than any machine vector denotes no machine value; this keeps the
/// size guard honest.
proof fn lzf_grows(c: Seq<u8>, i: nat, out: Seq<u8>)
    requires
        out.len() > usize::MAX,
    ensures
        lzf_step(c, i, out) matches Some(o) ==> o.len() > usize::MAX,
    decreases c.len() - i,
{
    if i < c.len() {
        let ctrl = c[i as int];
        if ctrl < 32 {
            let run = (ctrl + 1) as nat;
            if i + 1 + run <= c.len() {
                lzf_grows(c, i + 1 + run, out + c.subrange((i + 1) as int, (i + 1 + run) as int));
            }
        } else {
            let l3 = ctrl / 32;
            if l3 == 7 {
                if i + 2 < c.len() {
                    let reflen = (7 + c[i as int + 1] + 2) as nat;
                    let off = ((ctrl % 32) * 256 + c[i as int + 2] + 1) as nat;
                    if off <= out.len() {
                        lzf_grows(c, i + 3, out + backcopy(out, (out.len() - off) as nat, reflen));
                    }
                }
            } else {
                if i + 1 < c.len() {
                    let reflen = (l3 + 2) as nat;
                    let off = ((ctrl % 32) * 256 + c[i as int + 1] + 1) as nat;
                    if off <= out.len() {
                        lzf_grows(c, i + 2, out + backcopy(out, (out.len() - off) as nat, reflen));
                    }
                }
            }
        }
    }
}

/// Writes a length-prefixed key.
pub fn write_length_prefixed_string(buf: &mut Vec<u8>, s: &[u8]) -> (r: Result<(), RdbError>)
    ensures
        match r {
            Ok(()) => s@.len() < 4294967296 && final(buf)@ == old(buf)@ + str_bytes(s@),
            Err(e) => e == RdbError::LengthTooLarge && s@.len() >= 4294967296 && final(buf)@ == old(
                buf,
            )@,
        },
{
    write_length_prefixed_bytes(buf, s)
}

/// Pairs joined for an opaque hash or sorted-set payload: each left part and
/// each right part followed by a zero separator.
pub open spec fn zip_join(pairs: Seq<(Seq<u8>, Seq<u8>)>) -> Seq<u8>
    decreases pairs.len(),
{
    if pairs.len() == 0 {
        Seq::empty()
    } else {
        (pairs[0].0 + seq![0u8] + pairs[0].1 + seq![0u8]).add(zip_join(pairs.drop_first()))
    }
}

/// The items of a list or set, each length-prefixed, in order.
pub open spec fn items_bytes(items: Seq<Seq<u8>>) -> Seq<u8>
    decreases items.len(),
{
    if items.len() == 0 {
        Seq::empty()
    } else {
        str_bytes(items[0]).add(items_bytes(items.drop_first()))
    }
}

/// The words a boolean is stored as.
pub open spec fn bool_text(b: bool) -> Seq<u8> {
    if b {
        seq![116u8, 114u8, 117u8, 101u8]
    } else {
        seq![102u8, 97u8, 108u8, 115u8, 101u8]
    }
}

/// One value record: the type opcode, the length-prefixed key, then the
/// payload the opcode calls for. Containers the snapshot carries opaquely
/// are written back verbatim; numbers and booleans are stored as their text.
/// A null value produces no record.
pub open spec fn value_payload(key: Seq<u8>, v: ValueView) -> Seq<u8> {
    match v {
        ValueView::String(b) => seq![0u8] + str_bytes(key) + str_bytes(b),
        ValueView::Integer(i) => seq![0u8] + str_bytes(key) + str_bytes(dec_i(i as int)),
        ValueView::Float(t) => seq![0u8] + str_bytes(key) + str_bytes(t),
        ValueView::Boolean(b) => seq![0u8] + str_bytes(key) + str_bytes(bool_text(b)),
        ValueView::Null => Seq::empty(),
        ValueView::List(items) => seq![1u8] + str_bytes(key) + rdb_len_bytes(items.len() as u64)
            + items_bytes(items),
        ValueView::SetVal(items) => seq![2u8] + str_bytes(key) + rdb_len_bytes(items.len() as u64)
            + items_bytes(items),
        ValueView::SortedSet(pairs) => seq![3u8] + str_bytes(key) + str_bytes(zip_join(pairs)),
        ValueView::Hash(pairs) => seq![4u8] + str_bytes(key) + str_bytes(zip_join(pairs)),
        ValueView::Zipmap(d) => seq![4u8] + str_bytes(key) + str_bytes(d),
        ValueView::Ziplist(d) => seq![10u8] + str_bytes(key) + str_bytes(d),
        ValueView::Intset(d) => seq![11u8] + str_bytes(key) + str_bytes(d),
        ValueView::Quicklist(d) => seq![13u8] + str_bytes(key) + str_bytes(d),
    }
}

/// Whether every length the record needs fits the on-disk length encoding.
pub open spec fn value_ok(key: Seq<u8>, v: ValueView) -> bool {
    v is Null || key.len() < 4294967296 && match v {
        ValueView::String(b) => b.len() < 4294967296,
        ValueView::Integer(i) => dec_i(i as int).len() < 4294967296,
        ValueView::Float(t) => t.len() < 4294967296,
        ValueView::Boolean(b) => true,
        ValueView::Null => true,
        ValueView::List(items) => items.len() < 4294967296 && forall|i: int|
            0 <= i < items.len() ==> (#[trigger] items[i]).len() < 4294967296,
        ValueView::SetVal(items) => items.len() < 4294967296 && forall|i: int|
            0 <= i < items.len() ==> (#[trigger] items[i]).len() < 4294967296,
        ValueView::SortedSet(pairs) => zip_join(pairs).len() < 4294967296,
        ValueView::Hash(pairs) => zip_join(pairs).len() < 4294967296,
        ValueView::Zipmap(d) => d.len() < 4294967296,
        ValueView::Ziplist(d) => d.len() < 4294967296,
        ValueView::Intset(d) => d.len() < 4294967296,
        ValueView::Quicklist(d) => d.len() < 4294967296,
    }
}

/// The expiry record a slot's deadline produces: a deadline still in the
/// future at `now_mono` becomes the wall-clock millisecond timestamp
/// `now_wall` plus the time left; a deadline already passed, or no deadline,
/// produces nothing.
pub open spec fn expiry_bytes(expires_at: Option<u64>, now_wall: u64, now_mono: u64) -> Seq<u8> {
    match expires_at {
        Some(dl) => if dl > now_mono {
            seq![252u8] + le_bytes(crate::store::sat_add(now_wall, (dl - now_mono) as u64) as nat, 8)
        } else {
            Seq::empty()
        },
        None => Seq::empty(),
    }
}

/// One slot of the keyspace on disk: its expiry record, then its value
/// record. A null value produces nothing at all.
pub open spec fn entry_bytes(e: Entry, now_wall: u64, now_mono: u64) -> Seq<u8> {
    match e.value@ {
        ValueView::Null => Seq::empty(),
        v => expiry_bytes(e.expires_at, now_wall, now_mono) + value_payload(e.key@, v),
    }
}

/// The records of all slots, in order.
pub open spec fn entries_bytes(s: Seq<Entry>, now_wall: u64, now_mono: u64) -> Seq<u8>
    decreases s.len(),
{
    if s.len() == 0 {
        Seq::empty()
    } else {
        entry_bytes(s[0], now_wall, now_mono).add(entries_bytes(s.drop_first(), now_wall, now_mono))
    }
}

/// How many slots carry a deadline.
pub open spec fn count_exp(s: Seq<Entry>) -> nat
    decreases s.len(),
{
    if s.len() == 0 {
        0
    } else {
        count_exp(s.drop_last()) + if s.last().expires_at is Some {
            1nat
        } else {
            0nat
        }
    }
}

/// The magic, the four version digits, the selector for database zero, and
/// the resize hint with the table sizes.
pub open spec fn header_bytes(n_keys: u64, n_exp: u64) -> Seq<u8> {
    seq![82u8, 69u8, 68u8, 73u8, 83u8, 48u8, 48u8, 49u8, 49u8] + seq![254u8] + rdb_len_bytes(0)
        + seq![251u8] + rdb_len_bytes(n_keys) + rdb_len_bytes(n_exp)
}

/// A whole snapshot: header, records, the end marker, and the CRC64 of
/// everything before it, little endian.
pub open spec fn spec_save(s: Seq<Entry>, now_wall: u64, now_mono: u64) -> Seq<u8> {
    let body = header_bytes(s.len() as u64, count_exp(s) as u64) + entries_bytes(
        s,
        now_wall,
        now_mono,
    ) + seq![255u8];
    body + le_bytes(crc64_of(0, body) as nat, 8)
}

/// Whether a whole row of slots can be written.
pub open spec fn save_ok(s: Seq<Entry>) -> bool {
    s.len() < 4294967296 && forall|i: int|
        0 <= i < s.len() ==> value_ok((#[trigger] s[i]).key@, s[i].value@)
}

/// Whether the keyspace itself can be written: finitely many keys, few
/// enough for the resize hint, and every slot's lengths within the on-disk
/// length encoding. Serialisability does not depend on the order the slots
/// are walked in.
pub open spec fn map_save_ok(m: Map<Seq<u8>, crate::store::EntryView>) -> bool {
    &&& m.dom().finite()
    &&& m.dom().len() < 4294967296
    &&& forall|k: Seq<u8>| #[trigger] m.contains_key(k) ==> value_ok(k, m[k].value)
}

/// Rows with pairwise distinct keys can be written exactly when the mapping
/// they amount to can: `save_ok` of any row order is `map_save_ok` of the
/// keyspace.
pub proof fn lemma_rows_save_ok(rows: Seq<Entry>)
    requires
        forall|i: int, j: int| 0 <= i < j < rows.len() ==> rows[i].key@ != rows[j].key@,
    ensures
        crate::store::entries_map(rows).dom().finite(),
        crate::store::entries_map(rows).dom().len() == rows.len(),
        save_ok(rows) <==> map_save_ok(crate::store::entries_map(rows)),
    decreases rows.len(),
{
    let m = crate::store::entries_map(rows);
    crate::store::lemma_entries_map(rows);
    if rows.len() == 0 {
        assert(m.dom() =~= Set::<Seq<u8>>::empty());
        assert(Set::<Seq<u8>>::empty().finite());
        assert(Set::<Seq<u8>>::empty().len() == 0);
    } else {
        let prev = rows.drop_last();
        let mp = crate::store::entries_map(prev);
        assert forall|i: int, j: int| 0 <= i < j < prev.len() implies prev[i].key@
            != prev[j].key@ by {
            assert(prev[i] == rows[i] && prev[j] == rows[j]);
        }
        lemma_rows_save_ok(prev);
        crate::store::lemma_entries_map(prev);
        assert(!mp.contains_key(rows.last().key@)) by {
            if mp.contains_key(rows.last().key@) {
                let i = choose|i: int| 0 <= i < prev.len() && prev[i].key@ == rows.last().key@;
                assert(rows[i].key@ == rows[rows.len() - 1].key@);
            }
        }
        assert(m == mp.insert(rows.last().key@, rows.last().entry_view()));
        assert(m.dom() == mp.dom().insert(rows.last().key@));
        assert(m.dom().len() == mp.dom().len() + 1) by {
            vstd::set::axiom_set_insert_len(mp.dom(), rows.last().key@);
        }
    }
    if save_ok(rows) {
        assert forall|k: Seq<u8>| #[trigger] m.contains_key(k) implies value_ok(k, m[k].value) by {
            let i = choose|i: int| 0 <= i < rows.len() && rows[i].key@ == k;
            assert(m[rows[i].key@] == rows[i].entry_view());
        }
    }
    if map_save_ok(m) {
        assert forall|i: int| 0 <= i < rows.len() implies value_ok(
            (#[trigger] rows[i]).key@,
            rows[i].value@,
        ) by {
            assert(m.contains_key(rows[i].key@));
            assert(m[rows[i].key@] == rows[i].entry_view());
        }
    }
}

/// Writes one slot: the expiry record when a deadline stands in the future,
/// then the value record.
fn write_entry(buf: &mut Vec<u8>, e: &Entry, now_wall: u64, now_mono: u64) -> (r: Result<
    (),
    RdbError,
>)
    ensures
        match r {
            Ok(()) => value_ok(e.key@, e.value@) && final(buf)@ == old(buf)@ + entry_bytes(
                *e,
                now_wall,
                now_mono,
            ),
            Err(err) => err == RdbError::LengthTooLarge && !value_ok(e.key@, e.value@),
        },
{
    let is_null = match &e.value {
        RedisValue::Null => true,
        _ => false,
    };
    if is_null {
        proof {
            assert(buf@ =~= old(buf)@ + entry_bytes(*e, now_wall, now_mono));
        }
        return Ok(());
    }
    match e.expires_at {
        Some(dl) => {
            if dl > now_mono {
                buf.push(252);
                let stamp = crate::store::saturating_add(now_wall, dl - now_mono);
                push_le(buf, stamp, 8);
            }
        },
        None => {},
    }
    proof {
        assert(buf@ =~= old(buf)@ + expiry_bytes(e.expires_at, now_wall, now_mono));
    }
    match write_value(buf, &e.key, &e.value) {
        Ok(()) => {},
        Err(err) => {
            return Err(err);
        },
    }
    proof {
        assert(buf@ =~= old(buf)@ + entry_bytes(*e, now_wall, now_mono));
    }
    Ok(())
}

/// Writes one value record: the opcode its type calls for, the
/// length-prefixed key, and the payload.
#[verifier::rlimit(100)]
fn write_value(buf: &mut Vec<u8>, key: &Vec<u8>, value: &RedisValue) -> (r: Result<(), RdbError>)
    requires
        !(value@ is Null),
    ensures
        match r {
            Ok(()) => value_ok(key@, value@) && final(buf)@ == old(buf)@ + value_payload(
                key@,
                value@,
            ),
            Err(err) => err == RdbError::LengthTooLarge && !value_ok(key@, value@),
        },
{
    match value {
        RedisValue::String(b) => {
            buf.push(0);
            write_length_prefixed_string(buf, key.as_slice())?;
            write_length_prefixed_bytes(buf, b.as_slice())?;
            proof {
                assert(buf@ =~= old(buf)@ + value_payload(key@, value@));
            }
        },
        RedisValue::Integer(i) => {
            buf.push(0);
            write_length_prefixed_string(buf, key.as_slice())?;
            let mut text: Vec<u8> = Vec::new();
            push_dec_i64(&mut text, *i);
            proof {
                assert(text@ =~= dec_i(*i as int));
            }
            write_length_prefixed_bytes(buf, text.as_slice())?;
            proof {
                assert(buf@ =~= old(buf)@ + value_payload(key@, value@));
            }
        },
        RedisValue::Float(t) => {
            buf.push(0);
            write_length_prefixed_string(buf, key.as_slice())?;
            write_length_prefixed_bytes(buf, t.as_slice())?;
            proof {
                assert(buf@ =~= old(buf)@ + value_payload(key@, value@));
            }
        },
        RedisValue::Boolean(b) => {
            buf.push(0);
            write_length_prefixed_string(buf, key.as_slice())?;
            let mut text: Vec<u8> = Vec::new();
            if *b {
                text.push(116);
                text.push(114);
                text.push(117);
                text.push(101);
            } else {
                text.push(102);
                text.push(97);
                text.push(108);
                text.push(115);
                text.push(101);
            }
            proof {
                assert(text@ =~= bool_text(*b));
            }
            write_length_prefixed_bytes(buf, text.as_slice())?;
            proof {
                assert(buf@ =~= old(buf)@ + value_payload(key@, value@));
            }
        },
        RedisValue::Null => {
            proof {
                assert(false);
            }
        },
        RedisValue::List(items) => {
            buf.push(1);
            write_length_prefixed_string(buf, key.as_slice())?;
            write_rdb_length(buf, items.len() as u64)?;
            let ghost vitems = Seq::new(items@.len(), |j: int| items@[j]@);
            match write_items(buf, items) {
                Ok(()) => {
                    proof {
                        assert forall|j: int| 0 <= j < vitems.len() implies (
                        #[trigger] vitems[j]).len() < 4294967296 by {
                            assert(vitems[j] == items@[j]@);
                        }
                        assert(buf@ =~= old(buf)@ + value_payload(key@, value@));
                    }
                },
                Err(err) => {
                    proof {
                        let j = choose|j: int|
                            0 <= j < items@.len() && !((#[trigger] items@[j]@).len()
                            < 4294967296);
                        assert(vitems[j] == items@[j]@);
                        assert(!(vitems[j].len() < 4294967296));
                    }
                    return Err(err);
                },
            }
        },
        RedisValue::SetVal(items) => {
            buf.push(2);
            write_length_prefixed_string(buf, key.as_slice())?;
            write_rdb_length(buf, items.len() as u64)?;
            let ghost vitems = Seq::new(items@.len(), |j: int| items@[j]@);
            match write_items(buf, items) {
                Ok(()) => {
                    proof {
                        assert forall|j: int| 0 <= j < vitems.len() implies (
                        #[trigger] vitems[j]).len() < 4294967296 by {
                            assert(vitems[j] == items@[j]@);
                        }
                        assert(buf@ =~= old(buf)@ + value_payload(key@, value@));
                    }
                },
                Err(err) => {
                    proof {
                        let j = choose|j: int|
                            0 <= j < items@.len() && !((#[trigger] items@[j]@).len()
                            < 4294967296);
                        assert(vitems[j] == items@[j]@);
                        assert(!(vitems[j].len() < 4294967296));
                    }
                    return Err(err);
                },
            }
        },
        RedisValue::SortedSet(pairs) => {
            buf.push(3);
            write_length_prefixed_string(buf, key.as_slice())?;
            let blob = join_pairs(pairs);
            write_length_prefixed_bytes(buf, blob.as_slice())?;
            proof {
                assert(buf@ =~= old(buf)@ + value_payload(key@, value@));
            }
        },
        RedisValue::Hash(pairs) => {
            buf.push(4);
            write_length_prefixed_string(buf, key.as_slice())?;
            let blob = join_pairs(pairs);
            write_length_prefixed_bytes(buf, blob.as_slice())?;
            proof {
                assert(buf@ =~= old(buf)@ + value_payload(key@, value@));
            }
        },
        RedisValue::Zipmap(d) => {
            buf.push(4);
            write_length_prefixed_string(buf, key.as_slice())?;
            write_length_prefixed_bytes(buf, d.as_slice())?;
            proof {
                assert(buf@ =~= old(buf)@ + value_payload(key@, value@));
            }
        },
        RedisValue::Ziplist(d) => {
            buf.push(10);
            write_length_prefixed_string(buf, key.as_slice())?;
            write_length_prefixed_bytes(buf, d.as_slice())?;
            proof {
                assert(buf@ =~= old(buf)@ + value_payload(key@, value@));
            }
        },
        RedisValue::Intset(d) => {
            buf.push(11);
            write_length_prefixed_string(buf, key.as_slice())?;
            write_length_prefixed_bytes(buf, d.as_slice())?;
            proof {
                assert(buf@ =~= old(buf)@ + value_payload(key@, value@));
            }
        },
        RedisValue::Quicklist(d) => {
            buf.push(13);
            write_length_prefixed_string(buf, key.as_slice())?;
            write_length_prefixed_bytes(buf, d.as_slice())?;
            proof {
                assert(buf@ =~= old(buf)@ + value_payload(key@, value@));
            }
        },
    }
    Ok(())
}

/// Writes each item of a list or set, length-prefixed.
fn write_items(buf: &mut Vec<u8>, items: &Vec<Vec<u8>>) -> (r: Result<(), RdbError>)
    ensures
        match r {
            Ok(()) => (forall|i: int|
                0 <= i < items@.len() ==> (#[trigger] items@[i]@).len() < 4294967296) && final(buf)@
                == old(buf)@ + items_bytes(Seq::new(items@.len(), |i: int| items@[i]@)),
            Err(err) => err == RdbError::LengthTooLarge && !(forall|i: int|
                0 <= i < items@.len() ==> (#[trigger] items@[i]@).len() < 4294967296),
        },
{
    let ghost views = Seq::new(items@.len(), |i: int| items@[i]@);
    proof {
        assert(views.skip(0) =~= views);
    }
    let mut i: usize = 0;
    while i < items.len()
        invariant
            i <= items@.len(),
            views == Seq::new(items@.len(), |j: int| items@[j]@),
            forall|j: int| 0 <= j < i ==> (#[trigger] views[j]).len() < 4294967296,
            buf@ + items_bytes(views.skip(i as int)) == old(buf)@ + items_bytes(views),
        decreases items@.len() - i,
    {
        proof {
            assert(views.skip(i as int).drop_first() =~= views.skip(i + 1));
            assert(views.skip(i as int)[0] == views[i as int]);
        }
        match write_length_prefixed_bytes(buf, items[i].as_slice()) {
            Ok(()) => {},
            Err(err) => {
                return Err(err);
            },
        }
        i = i + 1;
    }
    proof {
        assert(views.skip(items@.len() as int) =~= Seq::<Seq<u8>>::empty());
        assert(buf@ + Seq::<u8>::empty() =~= buf@);
        assert forall|ii: int| 0 <= ii < items@.len() implies (#[trigger] items@[ii]@).len()
            < 4294967296 by {
            assert(views[ii] == items@[ii]@);
        }
    }
    Ok(())
}

/// Joins member/score or field/value pairs into the opaque payload: each
/// part followed by a zero separator.
fn join_pairs(pairs: &Vec<(Vec<u8>, Vec<u8>)>) -> (r: Vec<u8>)
    ensures
        r@ == zip_join(Seq::new(pairs@.len(), |i: int| (pairs@[i].0@, pairs@[i].1@))),
{
    let ghost views = Seq::new(pairs@.len(), |i: int| (pairs@[i].0@, pairs@[i].1@));
    proof {
        assert(views.skip(0) =~= views);
    }
    let mut out: Vec<u8> = Vec::new();
    let mut i: usize = 0;
    while i < pairs.len()
        invariant
            i <= pairs@.len(),
            views == Seq::new(pairs@.len(), |j: int| (pairs@[j].0@, pairs@[j].1@)),
            out@ + zip_join(views.skip(i as int)) == zip_join(views),
        decreases pairs@.len() - i,
    {
        proof {
            assert(views.skip(i as int).drop_first() =~= views.skip(i + 1));
            assert(views.skip(i as int)[0] == views[i as int]);
        }
        let pair = &pairs[i];
        crate::frame::push_bytes(&mut out, pair.0.as_slice());
        out.push(0);
        crate::frame::push_bytes(&mut out, pair.1.as_slice());
        out.push(0);
        i = i + 1;
    }
    proof {
        assert(views.skip(pairs@.len() as int) =~= Seq::<(Seq<u8>, Seq<u8>)>::empty());
        assert(out@ + Seq::<u8>::empty() =~= out@);
    }
    out
}

/// Serialises a whole row of slots to the on-disk snapshot form: header,
/// one record per slot with its expiry, the end marker, and the checksum.
/// Expired slots should be purged by the caller first; a deadline already
/// passed is simply not written.
pub fn save(entries: &Vec<Entry>, now_wall: u64, now_mono: u64) -> (r: Result<Vec<u8>, RdbError>)
    ensures
        match r {
            Ok(bytes) => save_ok(entries@) && bytes@ == spec_save(entries@, now_wall, now_mono),
            Err(e) => e == RdbError::LengthTooLarge && !save_ok(entries@),
        },
{
    let mut buf: Vec<u8> = Vec::new();
    buf.push(82);
    buf.push(69);
    buf.push(68);
    buf.push(73);
    buf.push(83);
    buf.push(48);
    buf.push(48);
    buf.push(49);
    buf.push(49);
    buf.push(254);
    match write_rdb_length(&mut buf, 0) {
        Ok(()) => {},
        Err(e) => {
            proof {
                assert(false);
            }
            return Err(e);
        },
    }
    buf.push(251);
    match write_rdb_length(&mut buf, entries.len() as u64) {
        Ok(()) => {},
        Err(e) => {
            return Err(e);
        },
    }
    let n_exp = count_expiring(entries);
    match write_rdb_length(&mut buf, n_exp) {
        Ok(()) => {},
        Err(e) => {
            proof {
                lemma_count_exp_bound(entries@);
            }
            return Err(e);
        },
    }
    proof {
        assert(buf@ =~= header_bytes(entries@.len() as u64, count_exp(entries@) as u64));
    }
    let ghost header = buf@;
    let ghost all = entries_bytes(entries@, now_wall, now_mono);
    proof {
        assert(entries@.skip(0) =~= entries@);
    }
    let mut i: usize = 0;
    while i < entries.len()
        invariant
            i <= entries@.len(),
            forall|j: int|
                0 <= j < i ==> value_ok((#[trigger] entries@[j]).key@, entries@[j].value@),
            buf@ + entries_bytes(entries@.skip(i as int), now_wall, now_mono) == header + all,
            all == entries_bytes(entries@, now_wall, now_mono),
        decreases entries@.len() - i,
    {
        proof {
            assert(entries@.skip(i as int).drop_first() =~= entries@.skip(i + 1));
            assert(entries@.skip(i as int)[0] == entries@[i as int]);
        }
        match write_entry(&mut buf, &entries[i], now_wall, now_mono) {
            Ok(()) => {},
            Err(e) => {
                return Err(e);
            },
        }
        i = i + 1;
    }
    proof {
        assert(entries@.skip(entries@.len() as int) =~= Seq::<Entry>::empty());
        assert(buf@ + Seq::<u8>::empty() =~= buf@);
    }
    buf.push(255);
    proof {
        assert(buf@ =~= header + all + seq![255u8]);
    }
    let crc = crc64_checksum(0, buf.as_slice());
    push_le(&mut buf, crc, 8);
    proof {
        assert(buf@ =~= spec_save(entries@, now_wall, now_mono));
    }
    Ok(buf)
}

/// How many slots carry a deadline, counted.
fn count_expiring(entries: &Vec<Entry>) -> (r: u64)
    ensures
        r == count_exp(entries@),
{
    proof {
        lemma_count_exp_bound(entries@);
        assert(entries@.take(0) =~= Seq::<Entry>::empty());
    }
    let mut count: u64 = 0;
    let mut i: usize = 0;
    while i < entries.len()
        invariant
            i <= entries@.len(),
            count == count_exp(entries@.take(i as int)),
            count <= i,
        decreases entries@.len() - i,
    {
        proof {
            assert(entries@.take(i + 1).drop_last() =~= entries@.take(i as int));
            assert(entries@.take(i + 1).last() == entries@[i as int]);
            lemma_count_exp_bound(entries@.take(i + 1));
        }
        if entries[i].expires_at.is_some() {
            count = count + 1;
        }
        i = i + 1;
    }
    proof {
        assert(entries@.take(entries@.len() as int) =~= entries@);
    }
    count
}

/// No more slots carry a deadline than there are slots.
proof fn lemma_count_exp_bound(s: Seq<Entry>)
    ensures
        count_exp(s) <= s.len(),
    decreases s.len(),
{
    if s.len() > 0 {
        lemma_count_exp_bound(s.drop_last());
    }
}

/// What the on-disk length encoding at `pos` denotes, and where the next
/// byte stands. The special forms of the top-bits-11 scheme describe string
/// payloads, not plain lengths, and are refused here.
pub open spec fn spec_read_rdb_length(d: Seq<u8>, pos: nat) -> Result<(u64, nat), RdbError> {
    if pos >= d.len() {
        Err(RdbError::Truncated)
    } else {
        let b = d[pos as int];
        if b < 64 {
            Ok((b as u64, pos + 1))
        } else if b < 128 {
            if pos + 2 > d.len() {
                Err(RdbError::Truncated)
            } else {
                Ok((((b - 64) * 256 + d[pos as int + 1]) as u64, pos + 2))
            }
        } else if b < 192 {
            if pos + 5 > d.len() {
                Err(RdbError::Truncated)
            } else {
                Ok((le_value(d.subrange(pos as int + 1, pos as int + 5)) as u64, pos + 5))
            }
        } else {
            Err(RdbError::BadEncoding)
        }
    }
}

/// What the string encoding at `pos` denotes: a plain length-prefixed run of
/// bytes; or, under the top-bits-11 scheme, an 8-, 16- or 32-bit integer
/// stored as its decimal text, or an LZF-compressed run.
pub open spec fn spec_read_string(d: Seq<u8>, pos: nat) -> Result<(Seq<u8>, nat), RdbError> {
    if pos >= d.len() {
        Err(RdbError::Truncated)
    } else {
        let b = d[pos as int];
        if b < 192 {
            match spec_read_rdb_length(d, pos) {
                Err(e) => Err(e),
                Ok((len, p1)) => if p1 + len > d.len() {
                    Err(RdbError::Truncated)
                } else {
                    Ok((d.subrange(p1 as int, (p1 + len) as int), (p1 + len) as nat))
                },
            }
        } else {
            let low = b % 64;
            if low == 0 {
                if pos + 2 > d.len() {
                    Err(RdbError::Truncated)
                } else {
                    Ok((dec_i(d[pos as int + 1] as i8 as int), pos + 2))
                }
            } else if low == 1 {
                if pos + 3 > d.len() {
                    Err(RdbError::Truncated)
                } else {
                    Ok(
                        (
                            dec_i(
                                le_value(d.subrange(pos as int + 1, pos as int + 3)) as u16 as i16
                                    as int,
                            ),
                            pos + 3,
                        ),
                    )
                }
            } else if low == 2 {
                if pos + 5 > d.len() {
                    Err(RdbError::Truncated)
                } else {
                    Ok(
                        (
                            dec_i(
                                le_value(d.subrange(pos as int + 1, pos as int + 5)) as u32 as i32
                                    as int,
                            ),
                            pos + 5,
                        ),
                    )
                }
            } else if low == 3 {
                match spec_read_rdb_length(d, pos + 1) {
                    Err(e) => Err(e),
                    Ok((clen, p1)) => match spec_read_rdb_length(d, p1) {
                        Err(e) => Err(e),
                        Ok((ulen, p2)) => if p2 + clen > d.len() {
                            Err(RdbError::Truncated)
                        } else {
                            match lzf_decompress(d.subrange(p2 as int, (p2 + clen) as int)) {
                                Some(out) => if out.len() > usize::MAX {
                                    Err(RdbError::BadCompression)
                                } else {
                                    Ok((out, (p2 + clen) as nat))
                                },
                                None => Err(RdbError::BadCompression),
                            }
                        },
                    },
                }
            } else {
                Err(RdbError::BadEncoding)
            }
        }
    }
}

/// A length read lands strictly ahead and within the stream.
pub proof fn lemma_read_length_advances(d: Seq<u8>, pos: nat)
    ensures
        spec_read_rdb_length(d, pos) matches Ok(r) ==> pos < r.1 <= d.len(),
{
}

/// A string read lands strictly ahead and within the stream.
pub proof fn lemma_read_string_advances(d: Seq<u8>, pos: nat)
    ensures
        spec_read_string(d, pos) matches Ok(r) ==> pos < r.1 <= d.len(),
{
    lemma_read_length_advances(d, pos);
    lemma_read_length_advances(d, pos + 1);
    if pos < d.len() && d[pos as int] >= 192 && d[pos as int] % 64 == 3 {
        match spec_read_rdb_length(d, pos + 1) {
            Ok((clen, p1)) => {
                lemma_read_length_advances(d, p1);
            },
            Err(_) => {},
        }
    }
}

/// `count` length-prefixed items starting at `pos`.
pub open spec fn spec_read_items(d: Seq<u8>, pos: nat, count: u64) -> Result<
    (Seq<Seq<u8>>, nat),
    RdbError,
>
    decreases count,
{
    if count == 0 {
        Ok((Seq::empty(), pos))
    } else {
        match spec_read_string(d, pos) {
            Err(e) => Err(e),
            Ok((item, p1)) => match spec_read_items(d, p1, (count - 1) as u64) {
                Err(e) => Err(e),
                Ok((rest, p2)) => Ok((seq![item] + rest, p2)),
            },
        }
    }
}

/// The record stream from `pos` on: metadata, hints and the selector are
/// read and dropped, an expiry record sets the pending timestamp for the
/// next value record, and each value record appends one loaded slot. The
/// stream ends at the end-of-file opcode, whose position is handed back.
pub open spec fn spec_records(
    d: Seq<u8>,
    pos: nat,
    pending: Option<u64>,
    acc: Seq<(Seq<u8>, ValueView, Option<u64>)>,
) -> Result<(Seq<(Seq<u8>, ValueView, Option<u64>)>, nat), RdbError>
    decreases d.len() - pos,
        via spec_records_dec
{
    if pos >= d.len() {
        Err(RdbError::Truncated)
    } else {
        let op = d[pos as int];
        if op == 255 {
            Ok((acc, pos + 1))
        } else if op == 250 {
            match spec_read_string(d, pos + 1) {
                Err(e) => Err(e),
                Ok((k, p1)) => match spec_read_string(d, p1) {
                    Err(e) => Err(e),
                    Ok((v, p2)) => spec_records(d, p2, pending, acc),
                },
            }
        } else if op == 251 {
            match spec_read_rdb_length(d, pos + 1) {
                Err(e) => Err(e),
                Ok((a, p1)) => match spec_read_rdb_length(d, p1) {
                    Err(e) => Err(e),
                    Ok((b, p2)) => spec_records(d, p2, pending, acc),
                },
            }
        } else if op == 254 {
            match spec_read_rdb_length(d, pos + 1) {
                Err(e) => Err(e),
                Ok((n, p1)) => spec_records(d, p1, pending, acc),
            }
        } else if op == 253 {
            if pos + 5 > d.len() {
                Err(RdbError::Truncated)
            } else {
                let secs = le_value(d.subrange(pos as int + 1, pos as int + 5));
                spec_records(d, pos + 5, Some((secs * 1000) as u64), acc)
            }
        } else if op == 252 {
            if pos + 9 > d.len() {
                Err(RdbError::Truncated)
            } else {
                let ms = le_value(d.subrange(pos as int + 1, pos as int + 9));
                spec_records(d, pos + 9, Some(ms as u64), acc)
            }
        } else if op == 0 || op == 3 || op == 4 || op == 9 || op == 10 || op == 11 || op == 12 || op
            == 13 {
            match spec_read_string(d, pos + 1) {
                Err(e) => Err(e),
                Ok((key, p1)) => match spec_read_string(d, p1) {
                    Err(e) => Err(e),
                    Ok((payload, p2)) => {
                        let v = if op == 0 {
                            ValueView::String(payload)
                        } else if op == 3 || op == 9 || op == 10 {
                            ValueView::Ziplist(payload)
                        } else if op == 4 {
                            ValueView::Zipmap(payload)
                        } else if op == 11 || op == 12 {
                            ValueView::Intset(payload)
                        } else {
                            ValueView::Quicklist(payload)
                        };
                        spec_records(d, p2, None, acc + seq![(key, v, pending)])
                    },
                },
            }
        } else if op == 1 || op == 2 {
            match spec_read_string(d, pos + 1) {
                Err(e) => Err(e),
                Ok((key, p1)) => match spec_read_rdb_length(d, p1) {
                    Err(e) => Err(e),
                    Ok((count, p2)) => match spec_read_items(d, p2, count) {
                        Err(e) => Err(e),
                        Ok((items, p3)) => {
                            let v = if op == 1 {
                                ValueView::List(items)
                            } else {
                                ValueView::SetVal(items)
                            };
                            spec_records(d, p3, None, acc + seq![(key, v, pending)])
                        },
                    },
                },
            }
        } else {
            Err(RdbError::UnknownOpcode)
        }
    }
}

#[via_fn]
proof fn spec_records_dec(
    d: Seq<u8>,
    pos: nat,
    pending: Option<u64>,
    acc: Seq<(Seq<u8>, ValueView, Option<u64>)>,
) {
    lemma_read_string_advances(d, pos + 1);
    lemma_read_length_advances(d, pos + 1);
    if pos < d.len() {
        match spec_read_string(d, pos + 1) {
            Ok((k, p1)) => {
                lemma_read_string_advances(d, p1);
                lemma_read_length_advances(d, p1);
                match spec_read_rdb_length(d, p1) {
                    Ok((count, p2)) => {
                        lemma_read_items_advances(d, p2, count);
                    },
                    Err(_) => {},
                }
            },
            Err(_) => {},
        }
        match spec_read_rdb_length(d, pos + 1) {
            Ok((a, p1)) => {
                lemma_read_length_advances(d, p1);
            },
            Err(_) => {},
        }
    }
}

/// An item run lands no earlier than it starts, and within the stream.
pub proof fn lemma_read_items_advances(d: Seq<u8>, pos: nat, count: u64)
    ensures
        spec_read_items(d, pos, count) matches Ok(r) ==> pos <= r.1 && (pos <= d.len() ==> r.1
            <= d.len()),
    decreases count,
{
    if count > 0 {
        lemma_read_string_advances(d, pos);
        match spec_read_string(d, pos) {
            Ok((item, p1)) => {
                lemma_read_items_advances(d, p1, (count - 1) as u64);
            },
            Err(_) => {},
        }
    }
}

/// Reads snapshot images.
pub struct RdbParser;

impl RdbParser {
    /// Loads a snapshot image from its bytes, exactly as `spec_load` says:
    /// magic and version first, then the records to the end marker, then the
    /// checksum over everything before it.
    #[verifier::rlimit(100)]
    pub fn load(data: &[u8]) -> (r: Result<RdbDatabase, RdbError>)
        ensures
            match r {
                Ok(db) => spec_load(data@) == Ok::<Seq<(Seq<u8>, ValueView, Option<u64>)>, RdbError>(
                    db_view(db.data@),
                ),
                Err(e) => spec_load(data@) == Err::<Seq<(Seq<u8>, ValueView, Option<u64>)>, RdbError>(
                    e,
                ),
            },
    {
        let dlen = data.len();
        if dlen < 5 {
            return Err(RdbError::Truncated);
        }
        if !(data[0] == 82 && data[1] == 69 && data[2] == 68 && data[3] == 73 && data[4] == 83) {
            proof {
                let m = seq![82u8, 69u8, 68u8, 73u8, 83u8];
                if data@.subrange(0, 5) == m {
                    assert(data@[0] == data@.subrange(0, 5)[0]);
                    assert(data@[1] == data@.subrange(0, 5)[1]);
                    assert(data@[2] == data@.subrange(0, 5)[2]);
                    assert(data@[3] == data@.subrange(0, 5)[3]);
                    assert(data@[4] == data@.subrange(0, 5)[4]);
                }
            }
            return Err(RdbError::BadMagic);
        }
        proof {
            assert(data@.subrange(0, 5) =~= seq![82u8, 69u8, 68u8, 73u8, 83u8]);
        }
        if dlen < 9 {
            return Err(RdbError::Truncated);
        }
        if !(data[5] == 48 && data[6] == 48 && data[7] == 49 && data[8] == 49) {
            proof {
                let v = seq![48u8, 48u8, 49u8, 49u8];
                if data@.subrange(5, 9) == v {
                    assert(data@[5] == data@.subrange(5, 9)[0]);
                    assert(data@[6] == data@.subrange(5, 9)[1]);
                    assert(data@[7] == data@.subrange(5, 9)[2]);
                    assert(data@[8] == data@.subrange(5, 9)[3]);
                }
            }
            return Err(RdbError::BadVersion);
        }
        proof {
            assert(data@.subrange(5, 9) =~= seq![48u8, 48u8, 49u8, 49u8]);
            assert(db_view(Seq::<(Vec<u8>, RedisEntry)>::empty()) =~= Seq::<
                (Seq<u8>, ValueView, Option<u64>),
            >::empty());
        }
        let mut out: Vec<(Vec<u8>, RedisEntry)> = Vec::new();
        let mut pos: usize = 9;
        let mut pending: Option<u64> = None;
        loop
            invariant_except_break
                9 <= pos <= dlen,
                dlen == data@.len(),
                data@.subrange(0, 5) == seq![82u8, 69u8, 68u8, 73u8, 83u8],
                data@.subrange(5, 9) == seq![48u8, 48u8, 49u8, 49u8],
                spec_records(data@, 9, None, Seq::empty()) == spec_records(
                    data@,
                    pos as nat,
                    pending,
                    db_view(out@),
                ),
            ensures
                9 <= pos <= dlen,
                dlen == data@.len(),
                data@.subrange(0, 5) == seq![82u8, 69u8, 68u8, 73u8, 83u8],
                data@.subrange(5, 9) == seq![48u8, 48u8, 49u8, 49u8],
                spec_records(data@, 9, None, Seq::empty()) == Ok::<
                    (Seq<(Seq<u8>, ValueView, Option<u64>)>, nat),
                    RdbError,
                >((db_view(out@), pos as nat)),
            decreases dlen - pos,
        {
            if pos >= dlen {
                return Err(RdbError::Truncated);
            }
            let op = data[pos];
            if op == 255 {
                pos = pos + 1;
                break;
            } else if op == 250 {
                let (_k, p1) = match read_string_with_encoding(data, pos + 1) {
                    Ok(v) => v,
                    Err(e) => {
                        return Err(e);
                    },
                };
                let (_v, p2) = match read_string_with_encoding(data, p1) {
                    Ok(v) => v,
                    Err(e) => {
                        return Err(e);
                    },
                };
                pos = p2;
            } else if op == 251 {
                let (_a, p1) = match read_rdb_length(data, pos + 1) {
                    Ok(v) => v,
                    Err(e) => {
                        return Err(e);
                    },
                };
                let (_b, p2) = match read_rdb_length(data, p1) {
                    Ok(v) => v,
                    Err(e) => {
                        return Err(e);
                    },
                };
                pos = p2;
            } else if op == 254 {
                let (_n, p1) = match read_rdb_length(data, pos + 1) {
                    Ok(v) => v,
                    Err(e) => {
                        return Err(e);
                    },
                };
                pos = p1;
            } else if op == 253 {
                if dlen - pos < 5 {
                    return Err(RdbError::Truncated);
                }
                let secs = read_le(data, pos + 1, 4);
                proof {
                    lemma_le_value_bound(data@.subrange(pos as int + 1, pos as int + 5));
                    lemma_pow256_vals();
                }
                pending = Some(secs * 1000);
                pos = pos + 5;
            } else if op == 252 {
                if dlen - pos < 9 {
                    return Err(RdbError::Truncated);
                }
                let ms = read_le(data, pos + 1, 8);
                pending = Some(ms);
                pos = pos + 9;
            } else if op == 0 || op == 3 || op == 4 || op == 9 || op == 10 || op == 11 || op == 12
                || op == 13 {
                let (key, p1) = match read_string_with_encoding(data, pos + 1) {
                    Ok(v) => v,
                    Err(e) => {
                        return Err(e);
                    },
                };
                let (payload, p2) = match read_string_with_encoding(data, p1) {
                    Ok(v) => v,
                    Err(e) => {
                        return Err(e);
                    },
                };
                let value = if op == 0 {
                    RedisValue::String(payload)
                } else if op == 3 || op == 9 || op == 10 {
                    RedisValue::Ziplist(payload)
                } else if op == 4 {
                    RedisValue::Zipmap(payload)
                } else if op == 11 || op == 12 {
                    RedisValue::Intset(payload)
                } else {
                    RedisValue::Quicklist(payload)
                };
                let ghost out0 = out@;
                let ghost pending0 = pending;
                out.push((key, RedisEntry { value, expiry: pending }));
                pending = None;
                pos = p2;
                proof {
                    assert(db_view(out@) =~= db_view(out0) + seq![
                        (out@.last().0@, out@.last().1.value@, pending0),
                    ]);
                }
            } else if op == 1 || op == 2 {
                let (key, p1) = match read_string_with_encoding(data, pos + 1) {
                    Ok(v) => v,
                    Err(e) => {
                        return Err(e);
                    },
                };
                let (count, p2) = match read_rdb_length(data, p1) {
                    Ok(v) => v,
                    Err(e) => {
                        return Err(e);
                    },
                };
                let (items, p3) = match read_items(data, p2, count) {
                    Ok(v) => v,
                    Err(e) => {
                        return Err(e);
                    },
                };
                let value = if op == 1 {
                    RedisValue::List(items)
                } else {
                    RedisValue::SetVal(items)
                };
                let ghost out0 = out@;
                let ghost pending0 = pending;
                out.push((key, RedisEntry { value, expiry: pending }));
                pending = None;
                pos = p3;
                proof {
                    assert(db_view(out@) =~= db_view(out0) + seq![
                        (out@.last().0@, out@.last().1.value@, pending0),
                    ]);
                }
            } else {
                return Err(RdbError::UnknownOpcode);
            }
        }
        if dlen - pos < 8 {
            return Err(RdbError::Truncated);
        }
        let expected = read_le(data, pos, 8);
        let body = crate::num::copy_range(data, 0, pos);
        let actual = crc64_checksum(0, body.as_slice());
        proof {
            assert(body@ =~= data@.take(pos as int));
        }
        if expected != actual {
            return Err(RdbError::ChecksumMismatch);
        }
        Ok(RdbDatabase { data: out })
    }
}

/// One loaded slot: the value and, if an expiry record stood before it, the
/// wall-clock millisecond timestamp it carried.
pub struct RedisEntry {
    pub value: RedisValue,
    pub expiry: Option<u64>,
}

/// What a snapshot loads to: keyed slots, in the order the stream gave them;
/// a key read twice stands twice, and the later reading wins on insertion.
pub struct RdbDatabase {
    pub data: Vec<(Vec<u8>, RedisEntry)>,
}

/// The mathematical shape of loaded slots.
pub open spec fn db_view(d: Seq<(Vec<u8>, RedisEntry)>) -> Seq<(Seq<u8>, ValueView, Option<u64>)> {
    Seq::new(d.len(), |i: int| (d[i].0@, d[i].1.value@, d[i].1.expiry))
}

/// Reads the on-disk length encoding at `pos`, exactly as
/// `spec_read_rdb_length` says.
pub fn read_rdb_length(s: &[u8], pos: usize) -> (r: Result<(u64, usize), RdbError>)
    ensures
        match r {
            Ok(v) => spec_read_rdb_length(s@, pos as nat) == Ok::<(u64, nat), RdbError>(
                (v.0, v.1 as nat),
            ) && pos < v.1 <= s@.len(),
            Err(e) => spec_read_rdb_length(s@, pos as nat) == Err::<(u64, nat), RdbError>(e),
        },
{
    let slen = s.len();
    if pos >= slen {
        return Err(RdbError::Truncated);
    }
    let b = s[pos];
    if b < 64 {
        Ok((b as u64, pos + 1))
    } else if b < 128 {
        if slen - pos < 2 {
            return Err(RdbError::Truncated);
        }
        Ok((((b - 64) as u64) * 256 + s[pos + 1] as u64, pos + 2))
    } else if b < 192 {
        if slen - pos < 5 {
            return Err(RdbError::Truncated);
        }
        let v = read_le(s, pos + 1, 4);
        Ok((v, pos + 5))
    } else {
        Err(RdbError::BadEncoding)
    }
}

/// Reads the string encoding at `pos`, exactly as `spec_read_string` says.
pub fn read_string_with_encoding(s: &[u8], pos: usize) -> (r: Result<(Vec<u8>, usize), RdbError>)
    ensures
        match r {
            Ok(v) => spec_read_string(s@, pos as nat) == Ok::<(Seq<u8>, nat), RdbError>(
                (v.0@, v.1 as nat),
            ) && pos < v.1 <= s@.len(),
            Err(e) => spec_read_string(s@, pos as nat) == Err::<(Seq<u8>, nat), RdbError>(e),
        },
{
    let slen = s.len();
    if pos >= slen {
        return Err(RdbError::Truncated);
    }
    let b = s[pos];
    if b < 192 {
        let (len, p1) = read_rdb_length(s, pos)?;
        if len > (slen - p1) as u64 {
            return Err(RdbError::Truncated);
        }
        let end = p1 + len as usize;
        let bytes = crate::num::copy_range(s, p1, end);
        Ok((bytes, end))
    } else {
        let low = b % 64;
        if low == 0 {
            if slen - pos < 2 {
                return Err(RdbError::Truncated);
            }
            let v = #[verifier::truncate] (s[pos + 1] as i8);
            let mut text: Vec<u8> = Vec::new();
            push_dec_i64(&mut text, v as i64);
            proof {
                assert(text@ =~= dec_i(s@[pos as int + 1] as i8 as int));
            }
            Ok((text, pos + 2))
        } else if low == 1 {
            if slen - pos < 3 {
                return Err(RdbError::Truncated);
            }
            let v = #[verifier::truncate] (#[verifier::truncate] (read_le(s, pos + 1, 2) as u16) as i16);
            let mut text: Vec<u8> = Vec::new();
            push_dec_i64(&mut text, v as i64);
            proof {
                assert(text@ =~= dec_i(
                    le_value(s@.subrange(pos as int + 1, pos as int + 3)) as u16 as i16 as int,
                ));
            }
            Ok((text, pos + 3))
        } else if low == 2 {
            if slen - pos < 5 {
                return Err(RdbError::Truncated);
            }
            let v = #[verifier::truncate] (#[verifier::truncate] (read_le(s, pos + 1, 4) as u32) as i32);
            let mut text: Vec<u8> = Vec::new();
            push_dec_i64(&mut text, v as i64);
            proof {
                assert(text@ =~= dec_i(
                    le_value(s@.subrange(pos as int + 1, pos as int + 5)) as u32 as i32 as int,
                ));
            }
            Ok((text, pos + 5))
        } else if low == 3 {
            let (clen, p1) = read_rdb_length(s, pos + 1)?;
            let (_ulen, p2) = read_rdb_length(s, p1)?;
            if clen > (slen - p2) as u64 {
                return Err(RdbError::Truncated);
            }
            let end = p2 + clen as usize;
            let compressed = crate::num::copy_range(s, p2, end);
            match lzf_decompress_fallback(compressed.as_slice(), 0) {
                Ok(out) => {
                    let olen = out.len();
                    Ok((out, end))
                },
                Err(e) => Err(e),
            }
        } else {
            Err(RdbError::BadEncoding)
        }
    }
}

/// Reads a length-prefixed key.
pub fn read_length_prefixed_string(s: &[u8], pos: usize) -> (r: Result<(Vec<u8>, usize), RdbError>)
    ensures
        match r {
            Ok(v) => spec_read_string(s@, pos as nat) == Ok::<(Seq<u8>, nat), RdbError>(
                (v.0@, v.1 as nat),
            ) && pos < v.1 <= s@.len(),
            Err(e) => spec_read_string(s@, pos as nat) == Err::<(Seq<u8>, nat), RdbError>(e),
        },
{
    read_string_with_encoding(s, pos)
}

/// Reads a length-prefixed byte run.
pub fn read_length_prefixed_bytes(s: &[u8], pos: usize) -> (r: Result<(Vec<u8>, usize), RdbError>)
    ensures
        match r {
            Ok(v) => spec_read_string(s@, pos as nat) == Ok::<(Seq<u8>, nat), RdbError>(
                (v.0@, v.1 as nat),
            ) && pos < v.1 <= s@.len(),
            Err(e) => spec_read_string(s@, pos as nat) == Err::<(Seq<u8>, nat), RdbError>(e),
        },
{
    read_string_with_encoding(s, pos)
}

/// Reads `count` length-prefixed items.
fn read_items(s: &[u8], pos: usize, count: u64) -> (r: Result<(Vec<Vec<u8>>, usize), RdbError>)
    requires
        pos <= s@.len(),
    ensures
        match r {
            Ok(v) => spec_read_items(s@, pos as nat, count) == Ok::<(Seq<Seq<u8>>, nat), RdbError>(
                (Seq::new(v.0@.len(), |i: int| v.0@[i]@), v.1 as nat),
            ) && pos <= v.1 <= s@.len(),
            Err(e) => spec_read_items(s@, pos as nat, count) == Err::<(Seq<Seq<u8>>, nat), RdbError>(
                e,
            ),
        },
    decreases count,
{
    if count == 0 {
        let out: Vec<Vec<u8>> = Vec::new();
        proof {
            assert(Seq::new(0, |i: int| out@[i]@) =~= Seq::<Seq<u8>>::empty());
        }
        return Ok((out, pos));
    }
    let (item, p1) = read_string_with_encoding(s, pos)?;
    match read_items(s, p1, count - 1) {
        Ok((mut rest, p2)) => {
            let ghost rest0 = rest@;
            rest.insert(0, item);
            proof {
                let whole = Seq::new(rest@.len(), |i: int| rest@[i]@);
                let tail = Seq::new(rest0.len(), |i: int| rest0[i]@);
                assert forall|i: int| 0 <= i < whole.len() implies whole[i] == (seq![item@]
                    + tail)[i] by {
                    if i > 0 {
                        assert(rest@[i] == rest0[i - 1]);
                    }
                }
                assert(whole =~= seq![item@] + tail);
            }
            Ok((rest, p2))
        },
        Err(e) => Err(e),
    }
}

/// What a whole snapshot image denotes: the magic and version are checked,
/// the records are read to the end marker, and the eight trailing bytes must
/// be the CRC64 of everything before them.
pub open spec fn spec_load(d: Seq<u8>) -> Result<
    Seq<(Seq<u8>, ValueView, Option<u64>)>,
    RdbError,
> {
    if d.len() < 5 {
        Err(RdbError::Truncated)
    } else if d.subrange(0, 5) != seq![82u8, 69u8, 68u8, 73u8, 83u8] {
        Err(RdbError::BadMagic)
    } else if d.len() < 9 {
        Err(RdbError::Truncated)
    } else if d.subrange(5, 9) != seq![48u8, 48u8, 49u8, 49u8] {
        Err(RdbError::BadVersion)
    } else {
        match spec_records(d, 9, None, Seq::empty()) {
            Err(e) => Err(e),
            Ok((entries, pos)) => if pos + 8 > d.len() {
                Err(RdbError::Truncated)
            } else {
                let expected = le_value(d.subrange(pos as int, pos as int + 8));
                if expected == crc64_of(0, d.take(pos as int)) {
                    Ok(entries)
                } else {
                    Err(RdbError::ChecksumMismatch)
                }
            },
        }
    }
}


/// What a stored value reads back as from a snapshot: strings, lists and
/// sets come back as themselves; numbers and booleans come back as string
/// values of their text; hashes and sorted sets come back as the opaque
/// payloads they were written as; opaque payloads come back verbatim.
pub open spec fn loaded_value(v: ValueView) -> ValueView {
    match v {
        ValueView::String(b) => ValueView::String(b),
        ValueView::Integer(i) => ValueView::String(dec_i(i as int)),
        ValueView::Float(t) => ValueView::String(t),
        ValueView::Boolean(b) => ValueView::String(bool_text(b)),
        ValueView::Null => ValueView::Null,
        ValueView::List(items) => ValueView::List(items),
        ValueView::SetVal(items) => ValueView::SetVal(items),
        ValueView::SortedSet(pairs) => ValueView::Ziplist(zip_join(pairs)),
        ValueView::Hash(pairs) => ValueView::Zipmap(zip_join(pairs)),
        ValueView::Zipmap(d) => ValueView::Zipmap(d),
        ValueView::Ziplist(d) => ValueView::Ziplist(d),
        ValueView::Intset(d) => ValueView::Intset(d),
        ValueView::Quicklist(d) => ValueView::Quicklist(d),
    }
}

/// The wall-clock expiry a slot reads back with: the timestamp its future
/// deadline was written as; nothing for a slot without one, or whose
/// deadline had already passed when it was written.
pub open spec fn loaded_expiry(expires_at: Option<u64>, now_wall: u64, now_mono: u64) -> Option<
    u64,
> {
    match expires_at {
        Some(dl) => if dl > now_mono {
            Some(crate::store::sat_add(now_wall, (dl - now_mono) as u64))
        } else {
            None
        },
        None => None,
    }
}

/// What a row of slots reads back as, in order; null values were never
/// written and so never read.
pub open spec fn loaded_entries(s: Seq<Entry>, now_wall: u64, now_mono: u64) -> Seq<
    (Seq<u8>, ValueView, Option<u64>),
>
    decreases s.len(),
{
    if s.len() == 0 {
        Seq::empty()
    } else {
        let head: Seq<(Seq<u8>, ValueView, Option<u64>)> = if s[0].value@ is Null {
            Seq::empty()
        } else {
            seq![
                (
                    s[0].key@,
                    loaded_value(s[0].value@),
                    loaded_expiry(s[0].expires_at, now_wall, now_mono),
                ),
            ]
        };
        head + loaded_entries(s.drop_first(), now_wall, now_mono)
    }
}

/// A length written in the on-disk encoding reads back as itself.
proof fn lemma_read_len_complete(d: Seq<u8>, pos: nat, n: u64)
    requires
        n < 4294967296,
        pos + rdb_len_bytes(n).len() <= d.len(),
        d.subrange(pos as int, (pos + rdb_len_bytes(n).len()) as int) == rdb_len_bytes(n),
    ensures
        spec_read_rdb_length(d, pos) == Ok::<(u64, nat), RdbError>(
            (n, (pos + rdb_len_bytes(n).len()) as nat),
        ),
{
    let e = rdb_len_bytes(n);
    assert forall|j: int| 0 <= j < e.len() implies #[trigger] d[pos + j] == e[j] by {
        assert(d.subrange(pos as int, (pos + e.len()) as int)[j] == d[pos + j]);
    }
    if n < 64 {
        assert(d[pos as int + 0] == e[0]);
        assert(d[pos as int] == n);
    } else if n < 16384 {
        assert(d[pos as int + 0] == e[0]);
        assert(d[pos as int + 1] == e[1]);
        assert(d[pos as int] == 64 + n / 256);
        assert(d[pos as int + 1] == n % 256);
        assert((((64 + n / 256) - 64) * 256 + (n % 256)) == n) by (nonlinear_arith)
            requires
                n < 16384,
        ;
    } else {
        lemma_pow256_vals();
        lemma_le_roundtrip(n as nat, 4);
        assert(d[pos as int + 0] == e[0]);
        assert(d[pos as int] == 128);
        assert forall|j: int| 0 <= j < 4 implies #[trigger] d.subrange(
            pos as int + 1,
            pos as int + 5,
        )[j] == le_bytes(n as nat, 4)[j] by {
            assert(d[pos + (j + 1)] == e[j + 1]);
        }
        assert(d.subrange(pos as int + 1, pos as int + 5) =~= le_bytes(n as nat, 4));
    }
}

/// A plain length-prefixed byte string reads back as itself.
proof fn lemma_read_string_complete(d: Seq<u8>, pos: nat, b: Seq<u8>)
    requires
        b.len() < 4294967296,
        pos + str_bytes(b).len() <= d.len(),
        d.subrange(pos as int, (pos + str_bytes(b).len()) as int) == str_bytes(b),
    ensures
        spec_read_string(d, pos) == Ok::<(Seq<u8>, nat), RdbError>(
            (b, (pos + str_bytes(b).len()) as nat),
        ),
{
    let lb = rdb_len_bytes(b.len() as u64);
    let e = str_bytes(b);
    assert forall|j: int| 0 <= j < e.len() implies #[trigger] d[pos + j] == e[j] by {
        assert(d.subrange(pos as int, (pos + e.len()) as int)[j] == d[pos + j]);
    }
    assert forall|j: int| 0 <= j < lb.len() implies #[trigger] d.subrange(
        pos as int,
        (pos + lb.len()) as int,
    )[j] == lb[j] by {
        assert(d[pos + j] == e[j]);
    }
    assert(d.subrange(pos as int, (pos + lb.len()) as int) =~= lb);
    lemma_read_len_complete(d, pos, b.len() as u64);
    assert(d[pos as int + 0] == e[0]);
    assert(d[pos as int] == lb[0]);
    assert(lb[0] < 192);
    let p1 = pos + lb.len();
    assert forall|j: int| 0 <= j < b.len() implies d[p1 + j] == b[j] by {
        assert(d[pos + (lb.len() + j)] == e[lb.len() + j]);
    }
    assert(d.subrange(p1 as int, (p1 + b.len()) as int) =~= b);
}


/// A run of length-prefixed items reads back as itself.
proof fn lemma_read_items_complete(d: Seq<u8>, pos: nat, items: Seq<Seq<u8>>)
    requires
        forall|i: int| 0 <= i < items.len() ==> (#[trigger] items[i]).len() < 4294967296,
        pos + items_bytes(items).len() <= d.len(),
        d.subrange(pos as int, (pos + items_bytes(items).len()) as int) == items_bytes(items),
    ensures
        spec_read_items(d, pos, items.len() as u64) == Ok::<(Seq<Seq<u8>>, nat), RdbError>(
            (items, (pos + items_bytes(items).len()) as nat),
        ) || items.len() > u64::MAX,
    decreases items.len(),
{
    if items.len() == 0 {
        assert(items =~= Seq::<Seq<u8>>::empty());
    } else if items.len() <= u64::MAX {
        let region = items_bytes(items);
        let e0 = str_bytes(items[0]);
        let rest = items_bytes(items.drop_first());
        assert(region == e0 + rest);
        assert forall|j: int| 0 <= j < region.len() implies #[trigger] d[pos + j] == region[j] by {
            assert(d.subrange(pos as int, (pos + region.len()) as int)[j] == d[pos + j]);
        }
        assert forall|j: int| 0 <= j < e0.len() implies #[trigger] d.subrange(
            pos as int,
            (pos + e0.len()) as int,
        )[j] == e0[j] by {
            assert(d[pos + j] == region[j]);
        }
        assert(d.subrange(pos as int, (pos + e0.len()) as int) =~= e0);
        lemma_read_string_complete(d, pos, items[0]);
        let p1 = pos + e0.len();
        assert forall|j: int| 0 <= j < rest.len() implies #[trigger] d.subrange(
            p1 as int,
            (p1 + rest.len()) as int,
        )[j] == rest[j] by {
            assert(d[pos + (j + e0.len())] == region[j + e0.len()]);
            assert(d.subrange(p1 as int, (p1 + rest.len()) as int)[j] == d[p1 + j]);
        }
        assert(d.subrange(p1 as int, (p1 + rest.len()) as int) =~= rest);
        assert forall|i: int|
            0 <= i < items.drop_first().len() implies (#[trigger] items.drop_first()[i]).len()
            < 4294967296 by {
            assert(items.drop_first()[i] == items[i + 1]);
        }
        lemma_read_items_complete(d, p1, items.drop_first());
        assert((items.len() as u64 - 1) as u64 == items.drop_first().len() as u64);
        assert(seq![items[0]] + items.drop_first() =~= items);
    }
}

/// One record whose payload is a single length-prefixed byte string read
/// back: the opcode picks the loaded form.
#[verifier::rlimit(100)]
#[verifier::spinoff_prover]
proof fn lemma_simple_value_record(
    d: Seq<u8>,
    pos: nat,
    key: Seq<u8>,
    op: u8,
    tail: Seq<u8>,
    lv: ValueView,
    pending: Option<u64>,
    acc: Seq<(Seq<u8>, ValueView, Option<u64>)>,
)
    requires
        key.len() < 4294967296,
        tail.len() < 4294967296,
        op == 0 || op == 3 || op == 4 || op == 10 || op == 11 || op == 13,
        op == 0 ==> lv == ValueView::String(tail),
        op == 3 || op == 10 ==> lv == ValueView::Ziplist(tail),
        op == 4 ==> lv == ValueView::Zipmap(tail),
        op == 11 ==> lv == ValueView::Intset(tail),
        op == 13 ==> lv == ValueView::Quicklist(tail),
        pos + 1 + str_bytes(key).len() + str_bytes(tail).len() <= d.len(),
        d.subrange(
            pos as int,
            (pos + 1 + str_bytes(key).len() + str_bytes(tail).len()) as int,
        ) == seq![op] + str_bytes(key) + str_bytes(tail),
    ensures
        spec_records(d, pos, pending, acc) == spec_records(
            d,
            pos + 1 + str_bytes(key).len() + str_bytes(tail).len(),
            None,
            acc + seq![(key, lv, pending)],
        ),
{
    let kb = str_bytes(key);
    let tb = str_bytes(tail);
    let vp = seq![op] + kb + tb;
    assert forall|j: int| 0 <= j < vp.len() implies #[trigger] d[pos + j] == vp[j] by {
        assert(d.subrange(pos as int, (pos + vp.len()) as int)[j] == d[pos + j]);
    }
    assert(d[pos as int + 0] == vp[0]);
    assert forall|j: int| 0 <= j < kb.len() implies #[trigger] d.subrange(
        pos as int + 1,
        (pos + 1 + kb.len()) as int,
    )[j] == kb[j] by {
        assert(d[pos + (j + 1)] == vp[j + 1]);
    }
    assert(d.subrange(pos as int + 1, (pos + 1 + kb.len()) as int) =~= kb);
    lemma_read_string_complete(d, pos + 1, key);
    let p1 = pos + 1 + kb.len();
    assert forall|j: int| 0 <= j < tb.len() implies #[trigger] d.subrange(
        p1 as int,
        (p1 + tb.len()) as int,
    )[j] == tb[j] by {
        assert(d[pos + (j + 1 + kb.len() as int)] == vp[j + 1 + kb.len() as int]);
        assert(d.subrange(p1 as int, (p1 + tb.len()) as int)[j] == d[p1 + j]);
        assert(p1 + j == pos + (j + 1 + kb.len() as int));
    }
    assert(d.subrange(p1 as int, (p1 + tb.len()) as int) =~= tb);
    lemma_read_string_complete(d, p1, tail);
}

/// One list or set record read back: the key, the count, then the items.
#[verifier::rlimit(100)]
#[verifier::spinoff_prover]
proof fn lemma_counted_value_record(
    d: Seq<u8>,
    pos: nat,
    key: Seq<u8>,
    op: u8,
    items: Seq<Seq<u8>>,
    lv: ValueView,
    pending: Option<u64>,
    acc: Seq<(Seq<u8>, ValueView, Option<u64>)>,
)
    requires
        key.len() < 4294967296,
        items.len() < 4294967296,
        forall|i: int| 0 <= i < items.len() ==> (#[trigger] items[i]).len() < 4294967296,
        op == 1 || op == 2,
        op == 1 ==> lv == ValueView::List(items),
        op == 2 ==> lv == ValueView::SetVal(items),
        pos + 1 + str_bytes(key).len() + rdb_len_bytes(items.len() as u64).len() + items_bytes(
            items,
        ).len() <= d.len(),
        d.subrange(
            pos as int,
            (pos + 1 + str_bytes(key).len() + rdb_len_bytes(items.len() as u64).len()
                + items_bytes(items).len()) as int,
        ) == seq![op] + str_bytes(key) + rdb_len_bytes(items.len() as u64) + items_bytes(items),
    ensures
        spec_records(d, pos, pending, acc) == spec_records(
            d,
            pos + 1 + str_bytes(key).len() + rdb_len_bytes(items.len() as u64).len() + items_bytes(
                items,
            ).len(),
            None,
            acc + seq![(key, lv, pending)],
        ),
{
    let kb = str_bytes(key);
    let lb = rdb_len_bytes(items.len() as u64);
    let ib = items_bytes(items);
    let vp = seq![op] + kb + lb + ib;
    assert forall|j: int| 0 <= j < vp.len() implies #[trigger] d[pos + j] == vp[j] by {
        assert(d.subrange(pos as int, (pos + vp.len()) as int)[j] == d[pos + j]);
    }
    assert(d[pos as int + 0] == vp[0]);
    assert forall|j: int| 0 <= j < kb.len() implies #[trigger] d.subrange(
        pos as int + 1,
        (pos + 1 + kb.len()) as int,
    )[j] == kb[j] by {
        assert(d[pos + (j + 1)] == vp[j + 1]);
    }
    assert(d.subrange(pos as int + 1, (pos + 1 + kb.len()) as int) =~= kb);
    lemma_read_string_complete(d, pos + 1, key);
    let p1 = pos + 1 + kb.len();
    assert forall|j: int| 0 <= j < lb.len() implies #[trigger] d.subrange(
        p1 as int,
        (p1 + lb.len()) as int,
    )[j] == lb[j] by {
        assert(d[pos + (j + 1 + kb.len() as int)] == vp[j + 1 + kb.len() as int]);
        assert(d.subrange(p1 as int, (p1 + lb.len()) as int)[j] == d[p1 + j]);
        assert(p1 + j == pos + (j + 1 + kb.len() as int));
    }
    assert(d.subrange(p1 as int, (p1 + lb.len()) as int) =~= lb);
    lemma_read_len_complete(d, p1, items.len() as u64);
    let p2 = p1 + lb.len();
    assert forall|j: int| 0 <= j < ib.len() implies #[trigger] d.subrange(
        p2 as int,
        (p2 + ib.len()) as int,
    )[j] == ib[j] by {
        assert(d[pos + (j + 1 + kb.len() as int + lb.len() as int)] == vp[j + 1 + kb.len() as int
            + lb.len() as int]);
        assert(d.subrange(p2 as int, (p2 + ib.len()) as int)[j] == d[p2 + j]);
        assert(p2 + j == pos + (j + 1 + kb.len() as int + lb.len() as int));
    }
    assert(d.subrange(p2 as int, (p2 + ib.len()) as int) =~= ib);
    lemma_read_items_complete(d, p2, items);
}

/// One value record read back, for the simple payload shapes.
#[verifier::rlimit(100)]
#[verifier::spinoff_prover]
proof fn lemma_value_record_simple(
    d: Seq<u8>,
    pos: nat,
    key: Seq<u8>,
    v: ValueView,
    pending: Option<u64>,
    acc: Seq<(Seq<u8>, ValueView, Option<u64>)>,
)
    requires
        !(v is Null),
        !(v is List),
        !(v is SetVal),
        value_ok(key, v),
        pos + value_payload(key, v).len() <= d.len(),
        d.subrange(pos as int, (pos + value_payload(key, v).len()) as int) == value_payload(key, v),
    ensures
        spec_records(d, pos, pending, acc) == spec_records(
            d,
            pos + value_payload(key, v).len(),
            None,
            acc + seq![(key, loaded_value(v), pending)],
        ),
{
    match v {
        ValueView::String(b) => {
            lemma_simple_value_record(d, pos, key, 0, b, loaded_value(v), pending, acc);
        },
        ValueView::Integer(i) => {
            lemma_simple_value_record(
                d,
                pos,
                key,
                0,
                dec_i(i as int),
                loaded_value(v),
                pending,
                acc,
            );
        },
        ValueView::Float(t) => {
            lemma_simple_value_record(d, pos, key, 0, t, loaded_value(v), pending, acc);
        },
        ValueView::Boolean(b) => {
            lemma_simple_value_record(d, pos, key, 0, bool_text(b), loaded_value(v), pending, acc);
        },
        ValueView::SortedSet(pairs) => {
            lemma_simple_value_record(
                d,
                pos,
                key,
                3,
                zip_join(pairs),
                loaded_value(v),
                pending,
                acc,
            );
        },
        ValueView::Hash(pairs) => {
            lemma_simple_value_record(
                d,
                pos,
                key,
                4,
                zip_join(pairs),
                loaded_value(v),
                pending,
                acc,
            );
        },
        ValueView::Zipmap(b) => {
            lemma_simple_value_record(d, pos, key, 4, b, loaded_value(v), pending, acc);
        },
        ValueView::Ziplist(b) => {
            lemma_simple_value_record(d, pos, key, 10, b, loaded_value(v), pending, acc);
        },
        ValueView::Intset(b) => {
            lemma_simple_value_record(d, pos, key, 11, b, loaded_value(v), pending, acc);
        },
        ValueView::Quicklist(b) => {
            lemma_simple_value_record(d, pos, key, 13, b, loaded_value(v), pending, acc);
        },
        _ => {},
    }
}

/// One value record read back: the opcode picks the loaded form, the key and
/// the payload come back as written, and the pending expiry lands on the
/// row.
#[verifier::rlimit(100)]
#[verifier::spinoff_prover]
proof fn lemma_value_record(
    d: Seq<u8>,
    pos: nat,
    key: Seq<u8>,
    v: ValueView,
    pending: Option<u64>,
    acc: Seq<(Seq<u8>, ValueView, Option<u64>)>,
)
    requires
        !(v is Null),
        value_ok(key, v),
        pos + value_payload(key, v).len() <= d.len(),
        d.subrange(pos as int, (pos + value_payload(key, v).len()) as int) == value_payload(key, v),
    ensures
        spec_records(d, pos, pending, acc) == spec_records(
            d,
            pos + value_payload(key, v).len(),
            None,
            acc + seq![(key, loaded_value(v), pending)],
        ),
{
    match v {
        ValueView::List(items) => {
            lemma_counted_value_record(d, pos, key, 1, items, loaded_value(v), pending, acc);
        },
        ValueView::SetVal(items) => {
            lemma_counted_value_record(d, pos, key, 2, items, loaded_value(v), pending, acc);
        },
        _ => {
            lemma_value_record_simple(d, pos, key, v, pending, acc);
        },
    }
}

/// Every slot of a row after the first is as writable as the row.
proof fn lemma_save_ok_drop_first(s: Seq<Entry>)
    requires
        save_ok(s),
        s.len() > 0,
    ensures
        save_ok(s.drop_first()),
{
    assert forall|i: int| 0 <= i < s.drop_first().len() implies value_ok(
        (#[trigger] s.drop_first()[i]).key@,
        s.drop_first()[i].value@,
    ) by {
        assert(s.drop_first()[i] == s[i + 1]);
    }
}

/// A region that is a concatenation stands as its two parts, one after the
/// other.
proof fn lemma_split_region(d: Seq<u8>, pos: nat, a: Seq<u8>, b: Seq<u8>)
    requires
        pos + a.len() + b.len() <= d.len(),
        d.subrange(pos as int, (pos + a.len() + b.len()) as int) == a + b,
    ensures
        d.subrange(pos as int, (pos + a.len()) as int) == a,
        d.subrange((pos + a.len()) as int, (pos + a.len() + b.len()) as int) == b,
{
    let e = a + b;
    assert forall|j: int| 0 <= j < e.len() implies #[trigger] d[pos + j] == e[j] by {
        assert(d.subrange(pos as int, (pos + e.len()) as int)[j] == d[pos + j]);
    }
    assert forall|j: int| 0 <= j < a.len() implies #[trigger] d.subrange(
        pos as int,
        (pos + a.len()) as int,
    )[j] == a[j] by {
        assert(d[pos + j] == e[j]);
    }
    assert(d.subrange(pos as int, (pos + a.len()) as int) =~= a);
    let p1 = pos + a.len();
    assert forall|j: int| 0 <= j < b.len() implies #[trigger] d.subrange(
        p1 as int,
        (p1 + b.len()) as int,
    )[j] == b[j] by {
        assert(d[pos + (j + a.len())] == e[j + a.len()]);
        assert(d.subrange(p1 as int, (p1 + b.len()) as int)[j] == d[p1 + j]);
    }
    assert(d.subrange(p1 as int, (p1 + b.len()) as int) =~= b);
}

/// One millisecond-expiry record read back: it sets the pending timestamp
/// and moves on.
#[verifier::rlimit(100)]
#[verifier::spinoff_prover]
proof fn lemma_expiry_step(
    d: Seq<u8>,
    pos: nat,
    stamp: u64,
    acc: Seq<(Seq<u8>, ValueView, Option<u64>)>,
)
    requires
        pos + 9 <= d.len(),
        d.subrange(pos as int, pos as int + 9) == seq![252u8] + le_bytes(stamp as nat, 8),
    ensures
        spec_records(d, pos, None, acc) == spec_records(d, pos + 9, Some(stamp), acc),
{
    lemma_pow256_vals();
    lemma_le_roundtrip(stamp as nat, 8);
    let e = seq![252u8] + le_bytes(stamp as nat, 8);
    assert forall|j: int| 0 <= j < 9 implies #[trigger] d[pos + j] == e[j] by {
        assert(d.subrange(pos as int, pos as int + 9)[j] == d[pos + j]);
    }
    assert(d[pos as int + 0] == e[0]);
    assert(d[pos as int] == 252);
    assert forall|j: int| 0 <= j < 8 implies #[trigger] d.subrange(
        pos as int + 1,
        pos as int + 9,
    )[j] == le_bytes(stamp as nat, 8)[j] by {
        assert(d[pos + (j + 1)] == e[j + 1]);
    }
    assert(d.subrange(pos as int + 1, pos as int + 9) =~= le_bytes(stamp as nat, 8));
}

/// The record stream of a saved row reads back as the loaded rows, ending
/// at the end marker.
#[verifier::rlimit(100)]
proof fn lemma_records_complete(
    d: Seq<u8>,
    pos: nat,
    s: Seq<Entry>,
    acc: Seq<(Seq<u8>, ValueView, Option<u64>)>,
    now_wall: u64,
    now_mono: u64,
)
    requires
        save_ok(s),
        pos + entries_bytes(s, now_wall, now_mono).len() + 1 <= d.len(),
        d.subrange(pos as int, (pos + entries_bytes(s, now_wall, now_mono).len()) as int)
            == entries_bytes(s, now_wall, now_mono),
        d[(pos + entries_bytes(s, now_wall, now_mono).len()) as int] == 255,
    ensures
        spec_records(d, pos, None, acc) == Ok::<
            (Seq<(Seq<u8>, ValueView, Option<u64>)>, nat),
            RdbError,
        >(
            (
                acc + loaded_entries(s, now_wall, now_mono),
                (pos + entries_bytes(s, now_wall, now_mono).len() + 1) as nat,
            ),
        ),
    decreases s.len(),
{
    let eb = entries_bytes(s, now_wall, now_mono);
    if s.len() == 0 {
        assert(acc + loaded_entries(s, now_wall, now_mono) =~= acc);
    } else {
        let e0 = entry_bytes(s[0], now_wall, now_mono);
        let rest = entries_bytes(s.drop_first(), now_wall, now_mono);
        assert(eb == e0 + rest);
        lemma_split_region(d, pos, e0, rest);
        lemma_save_ok_drop_first(s);
        let p_rest = pos + e0.len();
        assert(d[(p_rest + rest.len()) as int] == 255);
        if s[0].value@ is Null {
            assert(e0 =~= Seq::<u8>::empty());
            lemma_records_complete(d, p_rest, s.drop_first(), acc, now_wall, now_mono);
            assert(loaded_entries(s, now_wall, now_mono) =~= loaded_entries(
                s.drop_first(),
                now_wall,
                now_mono,
            ));
        } else {
            let vp = value_payload(s[0].key@, s[0].value@);
            let expb = expiry_bytes(s[0].expires_at, now_wall, now_mono);
            assert(e0 == expb + vp);
            lemma_split_region(d, pos, expb, vp);
            let p_vp = pos + expb.len();
            let row = (
                s[0].key@,
                loaded_value(s[0].value@),
                loaded_expiry(s[0].expires_at, now_wall, now_mono),
            );
            match s[0].expires_at {
                Some(dl) => {
                    if dl > now_mono {
                        let stamp = crate::store::sat_add(now_wall, (dl - now_mono) as u64);
                        assert(expb == seq![252u8] + le_bytes(stamp as nat, 8));
                        lemma_pow256_vals();
                        lemma_le_roundtrip(stamp as nat, 8);
                        assert(expb.len() == 9);
                        lemma_expiry_step(d, pos, stamp, acc);
                        lemma_value_record(d, p_vp, s[0].key@, s[0].value@, Some(stamp), acc);
                    } else {
                        assert(expb =~= Seq::<u8>::empty());
                        lemma_value_record(d, p_vp, s[0].key@, s[0].value@, None, acc);
                    }
                },
                None => {
                    assert(expb =~= Seq::<u8>::empty());
                    lemma_value_record(d, p_vp, s[0].key@, s[0].value@, None, acc);
                },
            }
            lemma_records_complete(d, p_rest, s.drop_first(), acc + seq![row], now_wall, now_mono);
            assert(loaded_entries(s, now_wall, now_mono) == seq![row] + loaded_entries(
                s.drop_first(),
                now_wall,
                now_mono,
            ));
            assert((acc + seq![row]) + loaded_entries(s.drop_first(), now_wall, now_mono) =~= acc
                + loaded_entries(s, now_wall, now_mono));
        }
    }
}

/// The header of a saved snapshot read back: the selector and the resize
/// hint are consumed and dropped.
proof fn lemma_header_steps(d: Seq<u8>, nk: u64, ne: u64)
    requires
        nk < 4294967296,
        ne < 4294967296,
        d.len() >= 12 + rdb_len_bytes(nk).len() + rdb_len_bytes(ne).len(),
        d.subrange(9, (12 + rdb_len_bytes(nk).len() + rdb_len_bytes(ne).len()) as int)
            == seq![254u8] + rdb_len_bytes(0) + seq![251u8] + rdb_len_bytes(nk) + rdb_len_bytes(ne),
    ensures
        forall|pending: Option<u64>, acc: Seq<(Seq<u8>, ValueView, Option<u64>)>|
            #[trigger] spec_records(d, 9, pending, acc) == spec_records(
                d,
                (12 + rdb_len_bytes(nk).len() + rdb_len_bytes(ne).len()) as nat,
                pending,
                acc,
            ),
{
    let hk = rdb_len_bytes(nk);
    let he = rdb_len_bytes(ne);
    let e = seq![254u8] + rdb_len_bytes(0) + seq![251u8] + hk + he;
    assert forall|j: int| 0 <= j < e.len() implies #[trigger] d[9 + j] == e[j] by {
        assert(d.subrange(9, 9 + e.len() as int)[j] == d[9 + j]);
    }
    assert(d[9int + 0] == e[0]);
    assert(d[9] == 254);
    assert(d[9int + 1] == e[1]);
    assert(d[10] == 0);
    assert(d.subrange(10, 11) =~= rdb_len_bytes(0));
    lemma_read_len_complete(d, 10, 0);
    assert(d[9int + 2] == e[2]);
    assert(d[11] == 251);
    assert forall|j: int| 0 <= j < hk.len() implies #[trigger] d.subrange(
        12,
        (12 + hk.len()) as int,
    )[j] == hk[j] by {
        assert(d[9 + (j + 3)] == e[j + 3]);
        assert(d.subrange(12, (12 + hk.len()) as int)[j] == d[12 + j]);
    }
    assert(d.subrange(12, (12 + hk.len()) as int) =~= hk);
    lemma_read_len_complete(d, 12, nk);
    let p_ne = 12 + hk.len();
    assert forall|j: int| 0 <= j < he.len() implies #[trigger] d.subrange(
        p_ne as int,
        (p_ne + he.len()) as int,
    )[j] == he[j] by {
        assert(d[9 + (j + 3 + hk.len())] == e[j + 3 + hk.len()]);
        assert(d.subrange(p_ne as int, (p_ne + he.len()) as int)[j] == d[p_ne + j]);
    }
    assert(d.subrange(p_ne as int, (p_ne + he.len()) as int) =~= he);
    lemma_read_len_complete(d, p_ne, ne);
    let p_eb = p_ne + he.len();
    assert forall|pending: Option<u64>, acc: Seq<(Seq<u8>, ValueView, Option<u64>)>|
        true implies #[trigger] spec_records(d, 9, pending, acc) == spec_records(
        d,
        p_eb as nat,
        pending,
        acc,
    ) by {
        assert(spec_records(d, 9, pending, acc) == spec_records(d, 11, pending, acc));
        assert(spec_records(d, 11, pending, acc) == spec_records(d, p_eb as nat, pending, acc));
    }
}

/// The snapshot round trip: loading what was saved gives back exactly the
/// loaded form of every slot, in order, with each future deadline carried
/// over as its wall-clock timestamp.
#[verifier::rlimit(100)]
pub proof fn lemma_snapshot_roundtrip(s: Seq<Entry>, now_wall: u64, now_mono: u64)
    requires
        save_ok(s),
    ensures
        spec_load(spec_save(s, now_wall, now_mono)) == Ok::<
            Seq<(Seq<u8>, ValueView, Option<u64>)>,
            RdbError,
        >(loaded_entries(s, now_wall, now_mono)),
{
    let header = header_bytes(s.len() as u64, count_exp(s) as u64);
    let eb = entries_bytes(s, now_wall, now_mono);
    let body = header + eb + seq![255u8];
    let crc = crc64_of(0, body);
    let d = body + le_bytes(crc as nat, 8);
    lemma_pow256_vals();
    lemma_le_roundtrip(crc as nat, 8);
    lemma_count_exp_bound(s);
    let nk = rdb_len_bytes(s.len() as u64);
    let ne = rdb_len_bytes(count_exp(s) as u64);
    let magic = seq![82u8, 69u8, 68u8, 73u8, 83u8, 48u8, 48u8, 49u8, 49u8];
    let hrest = seq![254u8] + rdb_len_bytes(0) + seq![251u8] + nk + ne;
    assert(header == magic + hrest);
    assert(d.subrange(0, header.len() as int) =~= header);
    lemma_split_region(d, 0, magic, hrest);
    assert(d.subrange(0, 5) =~= seq![82u8, 69u8, 68u8, 73u8, 83u8]);
    assert(d.subrange(5, 9) =~= seq![48u8, 48u8, 49u8, 49u8]);
    lemma_header_steps(d, s.len() as u64, count_exp(s) as u64);
    let p_eb = 12 + nk.len() + ne.len();
    assert(p_eb == header.len());
    assert(d.subrange(p_eb as int, (p_eb + eb.len()) as int) =~= eb);
    assert(d[(p_eb + eb.len()) as int] == 255);
    lemma_records_complete(d, p_eb, s, Seq::empty(), now_wall, now_mono);
    assert(Seq::<(Seq<u8>, ValueView, Option<u64>)>::empty() + loaded_entries(
        s,
        now_wall,
        now_mono,
    ) =~= loaded_entries(s, now_wall, now_mono));
    let p_end = p_eb + eb.len() + 1;
    assert(p_end == body.len());
    assert(d.subrange(p_end as int, p_end as int + 8) =~= le_bytes(crc as nat, 8));
    assert(d.take(p_end as int) =~= body);
}

} // verus!
