//! The roster file: a header of eighteen bytes, then the payload.  The
//! header holds the magic bytes, the format version, the time of creation
//! and a checksum of the payload, integers in little-endian order.

use vstd::prelude::*;

verus! {

/// Length of the header in bytes.
pub const HEADER_LEN: usize = 18;

/// Shortest buffer that is read as a file.
pub const MIN_FILE_LEN: usize = 24;

/// Newest format version that is read.
pub const FORMAT_VERSION: u16 = 1;

/// The header of a roster file.
#[derive(Debug, Clone, Copy, PartialEq, Eq)]
pub struct ScheduleFileHeader {
    pub magic: [u8; 4],
    pub version: u16,
    pub created_at: i64,
    pub checksum: u32,
}

/// Why a buffer is not a roster file.
#[derive(Debug, Clone, Copy, PartialEq, Eq)]
pub enum ScheduleFileError {
    InvalidFormat,
    UnsuportedVersion(u16),
}

/// The magic bytes, "SCHA".
pub open spec fn magic_bytes() -> Seq<u8> {
    seq![83u8, 67u8, 72u8, 65u8]
}

/// The sum of the bytes, modulo 2^32.
pub open spec fn checksum_of(data: Seq<u8>) -> int
    decreases data.len(),
{
    if data.len() == 0 {
        0
    } else {
        (checksum_of(data.drop_last()) + data.last()) % 0x1_0000_0000
    }
}

/// The `n` little-endian bytes of `v`.
pub open spec fn le_bytes(v: int, n: int) -> Seq<u8>
    decreases n,
{
    if n <= 0 {
        Seq::empty()
    } else {
        seq![(v % 256) as u8] + le_bytes(v / 256, n - 1)
    }
}

/// The number that the `n` bytes from `at` hold in little-endian order.
pub open spec fn le_value(bytes: Seq<u8>, at: int, n: int) -> int
    decreases n,
{
    if n <= 0 {
        0
    } else {
        bytes[at] + 256 * le_value(bytes, at + 1, n - 1)
    }
}

/// A signed 64-bit number as the unsigned number with the same bits.
pub open spec fn as_unsigned(v: int) -> int {
    if v >= 0 {
        v
    } else {
        v + 0x1_0000_0000_0000_0000
    }
}

/// An unsigned 64-bit number as the signed number with the same bits.
pub open spec fn as_signed(v: int) -> int {
    if v < 0x8000_0000_0000_0000 {
        v
    } else {
        v - 0x1_0000_0000_0000_0000
    }
}

/// The bytes of a header.
pub open spec fn header_layout(magic: Seq<u8>, version: int, created_at: int, checksum: int) -> Seq<
    u8,
> {
    magic + le_bytes(version, 2) + le_bytes(as_unsigned(created_at), 8) + le_bytes(checksum, 4)
}

/// What reading a buffer as a roster file gives: the header, or the reason
/// why the buffer is refused.  A buffer is refused as invalid where it is
/// shorter than the shortest file, where its magic bytes are wrong and
/// where the checksum is not that of the payload; a newer version is
/// refused as unsupported.
pub open spec fn file_verdict(bytes: Seq<u8>) -> Result<(Seq<u8>, int, int, int), ScheduleFileError> {
    if bytes.len() < MIN_FILE_LEN {
        Err(ScheduleFileError::InvalidFormat)
    } else if bytes.subrange(0, 4) != magic_bytes() {
        Err(ScheduleFileError::InvalidFormat)
    } else if le_value(bytes, 4, 2) > FORMAT_VERSION {
        Err(ScheduleFileError::UnsuportedVersion(le_value(bytes, 4, 2) as u16))
    } else if checksum_of(bytes.subrange(HEADER_LEN as int, bytes.len() as int)) != le_value(
        bytes,
        14,
        4,
    ) {
        Err(ScheduleFileError::InvalidFormat)
    } else {
        Ok(
            (
                bytes.subrange(0, 4),
                le_value(bytes, 4, 2),
                as_signed(le_value(bytes, 6, 8)),
                le_value(bytes, 14, 4),
            ),
        )
    }
}

/// The checksum of the bytes from `from` on: their sum, wrapping at 2^32.
pub fn checksum_from(data: &Vec<u8>, from: usize) -> (r: u32)
    requires
        from <= data.len(),
    ensures
        r == checksum_of(data@.subrange(from as int, data@.len() as int)),
{
    let ghost part = data@.subrange(from as int, data@.len() as int);
    let mut acc: u64 = 0;
    let mut i: usize = from;
    proof {
        assert(part.take(0) =~= Seq::<u8>::empty());
    }
    while i < data.len()
        invariant
            from <= i <= data.len(),
            part == data@.subrange(from as int, data@.len() as int),
            acc == checksum_of(part.take(i - from)),
            acc < 0x1_0000_0000,
        decreases data.len() - i,
    {
        proof {
            assert(part.take(i - from + 1).drop_last() =~= part.take(i - from));
            assert(part.take(i - from + 1).last() == data@[i as int]);
        }
        acc = (acc + data[i] as u64) % 0x1_0000_0000;
        i += 1;
    }
    proof {
        assert(part.take(data.len() - from) =~= part);
    }
    acc as u32
}

/// The checksum of the bytes: their sum, wrapping at 2^32.
pub fn simple_checksum(data: &Vec<u8>) -> (r: u32)
    ensures
        r == checksum_of(data@),
{
    proof {
        assert(data@.subrange(0, data@.len() as int) =~= data@);
    }
    checksum_from(data, 0)
}

fn push_le(out: &mut Vec<u8>, v: u64, n: usize)
    requires
        n <= 8,
    ensures
        final(out)@ == old(out)@ + le_bytes(v as int, n as int),
{
    let ghost start = out@;
    let mut rest: u64 = v;
    let mut k: usize = 0;
    proof {
        assert(start + le_bytes(v as int, n as int) =~= out@ + le_bytes(rest as int, n - k));
    }
    while k < n
        invariant
            k <= n,
            out@ + le_bytes(rest as int, n - k) == start + le_bytes(v as int, n as int),
        decreases n - k,
    {
        let ghost before = out@;
        out.push((rest % 256) as u8);
        proof {
            assert(before.push((rest % 256) as u8) + le_bytes(rest as int / 256, n - k - 1)
                =~= before + (seq![(rest % 256) as u8] + le_bytes(rest as int / 256, n - k - 1)));
        }
        rest = rest / 256;
        k += 1;
    }
    proof {
        assert(out@ + le_bytes(rest as int, 0) =~= out@);
    }
}

fn read_le(bytes: &Vec<u8>, at: usize, n: usize) -> (r: u64)
    requires
        n <= 8,
        at + n <= bytes.len(),
    ensures
        r == le_value(bytes@, at as int, n as int),
{
    let mut acc: u64 = 0;
    let mut k: usize = n;
    while k > 0
        invariant
            k <= n,
            n <= 8,
            at + n <= bytes.len(),
            acc == le_value(bytes@, at + k, n - k),
            acc < pow256(n - k),
        decreases k,
    {
        k -= 1;
        proof {
            lemma_pow256(n - k - 1);
        }
        acc = acc * 256 + bytes[at + k] as u64;
    }
    acc
}

/// 256 to the power `n`.
pub open spec fn pow256(n: int) -> int
    decreases n,
{
    if n <= 0 {
        1
    } else {
        256 * pow256(n - 1)
    }
}

proof fn lemma_pow256(n: int)
    requires
        0 <= n <= 8,
    ensures
        pow256(n) > 0,
        n < 8 ==> pow256(n) * 256 <= 0x1_0000_0000_0000_0000,
        pow256(n + 1) == 256 * pow256(n),
    decreases n,
{
    reveal_with_fuel(pow256, 10);
}

/// The bytes of a file of the current version: the header, then the
/// payload.
pub fn frame_file(created_at: i64, payload: &Vec<u8>) -> (r: Vec<u8>)
    ensures
        r@ == header_layout(
            magic_bytes(),
            FORMAT_VERSION as int,
            created_at as int,
            checksum_of(payload@),
        ) + payload@,
{
    let mut out: Vec<u8> = Vec::new();
    out.push(83);
    out.push(67);
    out.push(72);
    out.push(65);
    proof {
        assert(out@ =~= magic_bytes());
    }
    push_le(&mut out, FORMAT_VERSION as u64, 2);
    let stamp: u64 = if created_at >= 0 {
        created_at as u64
    } else {
        ((created_at + i64::MAX + 1) as u64) + 0x8000_0000_0000_0000
    };
    push_le(&mut out, stamp, 8);
    push_le(&mut out, simple_checksum(payload) as u64, 4);
    let ghost head = out@;
    let mut i: usize = 0;
    while i < payload.len()
        invariant
            i <= payload.len(),
            out@ == head + payload@.take(i as int),
        decreases payload.len() - i,
    {
        let ghost before = out@;
        out.push(payload[i]);
        proof {
            assert(before.push(payload@[i as int]) =~= head + payload@.take(i + 1));
        }
        i += 1;
    }
    proof {
        assert(payload@.take(payload@.len() as int) =~= payload@);
    }
    out
}

/// Reads a buffer as a roster file: checks its length, the magic bytes,
/// the version and the checksum of the payload, and returns the header.
/// The payload is what follows the header.
pub fn check_file(buffer: &Vec<u8>) -> (r: Result<ScheduleFileHeader, ScheduleFileError>)
    ensures
        match (r, file_verdict(buffer@)) {
            (Ok(h), Ok(v)) => h.magic@ == v.0 && h.version == v.1 && h.created_at == v.2
                && h.checksum == v.3,
            (Err(a), Err(b)) => a == b,
            _ => false,
        },
{
    if buffer.len() < MIN_FILE_LEN {
        return Err(ScheduleFileError::InvalidFormat);
    }
    let magic: [u8; 4] = [buffer[0], buffer[1], buffer[2], buffer[3]];
    if magic[0] != 83 || magic[1] != 67 || magic[2] != 72 || magic[3] != 65 {
        proof {
            assert(buffer@.subrange(0, 4)[0] == buffer@[0]);
            assert(buffer@.subrange(0, 4)[1] == buffer@[1]);
            assert(buffer@.subrange(0, 4)[2] == buffer@[2]);
            assert(buffer@.subrange(0, 4)[3] == buffer@[3]);
        }
        return Err(ScheduleFileError::InvalidFormat);
    }
    proof {
        assert(buffer@.subrange(0, 4) =~= magic_bytes());
        assert(magic@ =~= magic_bytes());
    }
    let version = read_le(buffer, 4, 2);
    proof {
        reveal_with_fuel(le_value, 3);
    }
    if version > FORMAT_VERSION as u64 {
        return Err(ScheduleFileError::UnsuportedVersion(version as u16));
    }
    let stamp = read_le(buffer, 6, 8);
    let sum = read_le(buffer, 14, 4);
    if checksum_from(buffer, HEADER_LEN) as u64 != sum {
        return Err(ScheduleFileError::InvalidFormat);
    }
    let created_at: i64 = if stamp < 0x8000_0000_0000_0000 {
        stamp as i64
    } else {
        ((stamp - 0x8000_0000_0000_0000) as i64) + i64::MIN
    };
    Ok(ScheduleFileHeader { magic, version: version as u16, created_at, checksum: sum as u32 })
}

proof fn lemma_le_round(bytes: Seq<u8>, at: int, v: int, n: int)
    requires
        0 <= n <= 8,
        0 <= at,
        at + n <= bytes.len(),
        0 <= v < pow256(n),
        bytes.subrange(at, at + n) == le_bytes(v, n),
    ensures
        le_value(bytes, at, n) == v,
    decreases n,
{
    if n > 0 {
        let part = bytes.subrange(at, at + n);
        let rest = le_bytes(v / 256, n - 1);
        assert(part == seq![(v % 256) as u8] + rest);
        assert(part[0] == (v % 256) as u8);
        assert(bytes[at] == part[0]);
        assert(bytes.subrange(at + 1, at + n) =~= rest) by {
            assert forall|k: int| 0 <= k < n - 1 implies bytes.subrange(at + 1, at + n)[k]
                == rest[k] by {
                assert(part[k + 1] == rest[k]);
            }
            lemma_le_len(v / 256, n - 1);
        }
        lemma_le_round(bytes, at + 1, v / 256, n - 1);
    }
}

proof fn lemma_le_len(v: int, n: int)
    requires
        0 <= n,
    ensures
        le_bytes(v, n).len() == n,
    decreases n,
{
    if n > 0 {
        lemma_le_len(v / 256, n - 1);
    }
}

proof fn lemma_checksum_range(data: Seq<u8>)
    ensures
        0 <= checksum_of(data) < 0x1_0000_0000,
    decreases data.len(),
{
    if data.len() > 0 {
        lemma_checksum_range(data.drop_last());
    }
}

/// A framed payload of six bytes or more reads back as a file of the
/// current version with the time of creation it was framed with.
pub proof fn law_frame_reads_back(created_at: i64, payload: Seq<u8>)
    requires
        payload.len() >= 6,
    ensures
        file_verdict(
            header_layout(
                magic_bytes(),
                FORMAT_VERSION as int,
                created_at as int,
                checksum_of(payload),
            ) + payload,
        ) == Ok::<(Seq<u8>, int, int, int), ScheduleFileError>(
            (magic_bytes(), FORMAT_VERSION as int, created_at as int, checksum_of(payload)),
        ),
{
    let sum = checksum_of(payload);
    let stamp = as_unsigned(created_at as int);
    let head = header_layout(magic_bytes(), FORMAT_VERSION as int, created_at as int, sum);
    let bytes = head + payload;
    lemma_checksum_range(payload);
    lemma_le_len(FORMAT_VERSION as int, 2);
    lemma_le_len(stamp, 8);
    lemma_le_len(sum, 4);
    reveal_with_fuel(pow256, 10);
    assert(head.len() == 18);
    assert(bytes.subrange(0, 4) =~= magic_bytes());
    assert(bytes.subrange(4, 6) =~= le_bytes(FORMAT_VERSION as int, 2));
    assert(bytes.subrange(6, 14) =~= le_bytes(stamp, 8));
    assert(bytes.subrange(14, 18) =~= le_bytes(sum, 4));
    assert(bytes.subrange(18, bytes.len() as int) =~= payload);
    lemma_le_round(bytes, 4, FORMAT_VERSION as int, 2);
    lemma_le_round(bytes, 6, stamp, 8);
    lemma_le_round(bytes, 14, sum, 4);
}

} // verus!
