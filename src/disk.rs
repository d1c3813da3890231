//! Arithmetic and decoding around the platform's disk-usage probe: byte
//! totals from block counts, and the volume name out of an attribute buffer.
use vstd::prelude::*;

verus! {

/// `a * b`, held at `u64::MAX` rather than wrapping round.
pub open spec fn sat_mul(a: u64, b: u64) -> u64 {
    if a * b > u64::MAX {
        u64::MAX
    } else {
        (a * b) as u64
    }
}

/// Capacity figures of a volume, in bytes.
pub struct DiskUsage {
    pub total_bytes: u64,
    pub available_bytes: u64,
    pub used_bytes: u64,
}

fn saturating_product(a: u64, b: u64) -> (r: u64)
    ensures
        r == sat_mul(a, b),
{
    match a.checked_mul(b) {
        Some(p) => p,
        None => u64::MAX,
    }
}

/// The capacity of a volume of `blocks` blocks, `blocks_available` of them
/// free to an ordinary user. The block size is `fragment_size` where that is
/// known (not 0), else `block_size`. Products stop at `u64::MAX`; the used
/// bytes are the total less the available ones, and never below 0.
pub fn disk_usage(blocks: u64, blocks_available: u64, fragment_size: u64, block_size: u64) -> (r:
    DiskUsage)
    ensures
        ({
            let unit = if fragment_size > 0 {
                fragment_size
            } else {
                block_size
            };
            &&& r.total_bytes == sat_mul(blocks, unit)
            &&& r.available_bytes == sat_mul(blocks_available, unit)
            &&& r.used_bytes == if r.total_bytes >= r.available_bytes {
                r.total_bytes - r.available_bytes
            } else {
                0
            }
        }),
{
    let unit = if fragment_size > 0 {
        fragment_size
    } else {
        block_size
    };
    let total = saturating_product(blocks, unit);
    let available = saturating_product(blocks_available, unit);
    DiskUsage {
        total_bytes: total,
        available_bytes: available,
        used_bytes: total.saturating_sub(available),
    }
}

/// The little-endian 32-bit number in the four bytes of `b` from `i` on.
pub open spec fn le_u32(b: Seq<u8>, i: int) -> int {
    b[i] + 256 * b[i + 1] + 65536 * b[i + 2] + 16777216 * b[i + 3]
}

/// `s` without its last byte, if that byte is 0.
pub open spec fn trim_nul(s: Seq<u8>) -> Seq<u8> {
    if s.len() > 0 && s.last() == 0 {
        s.drop_last()
    } else {
        s
    }
}

/// Where the volume name lies in an attribute buffer: a 4-byte length, then
/// an attribute reference of a signed 32-bit offset (counted from byte 4)
/// and a 32-bit length, both little-endian. `None` when the buffer is too
/// short to hold the reference, the offset is negative, or the name would
/// run past the end of the buffer.
pub open spec fn has_name(b: Seq<u8>) -> bool {
    !(b.len() < 12 || le_u32(b, 4) >= 0x8000_0000 || name_start(b) + le_u32(b, 8) > b.len())
}

/// Where the volume name starts in the buffer.
pub open spec fn name_start(b: Seq<u8>) -> int {
    4 + le_u32(b, 4)
}

/// Where the volume name ends in the buffer.
pub open spec fn name_end(b: Seq<u8>) -> int {
    name_start(b) + le_u32(b, 8)
}

fn read_le_u32(b: &Vec<u8>, i: usize) -> (r: u64)
    requires
        i <= 8,
        b@.len() >= 12,
    ensures
        r == le_u32(b@, i as int),
{
    let b0 = b[i] as u64;
    let b1 = b[i + 1] as u64;
    let b2 = b[i + 2] as u64;
    let b3 = b[i + 3] as u64;
    assert(256 * b1 <= 256 * 255 && 65536 * b2 <= 65536 * 255 && 16777216 * b3 <= 16777216 * 255)
        by (nonlinear_arith)
        requires
            b1 <= 255 && b2 <= 255 && b3 <= 255,
    ;
    b0 + 256 * b1 + 65536 * b2 + 16777216 * b3
}

/// The volume name held in the attribute buffer `buf`, as raw bytes without
/// a closing 0 byte.
pub fn volume_name_bytes(buf: &Vec<u8>) -> (r: Option<Vec<u8>>)
    ensures
        r is Some <==> has_name(buf@),
        r is Some ==> r->0@ == trim_nul(buf@.subrange(name_start(buf@), name_end(buf@))),
{
    if buf.len() < 12 {
        return None;
    }
    let offset = read_le_u32(buf, 4);
    let length = read_le_u32(buf, 8);
    if offset >= 0x8000_0000 {
        return None;
    }
    if 4 + offset + length > buf.len() as u64 {
        return None;
    }
    let start = (4 + offset) as usize;
    let end = (4 + offset + length) as usize;
    let mut stop = end;
    if end > start && buf[end - 1] == 0 {
        stop = end - 1;
    }
    let mut name: Vec<u8> = Vec::new();
    let mut i: usize = start;
    while i < stop
        invariant
            start <= i <= stop <= end <= buf@.len(),
            name@ == buf@.subrange(start as int, i as int),
        decreases stop - i,
    {
        name.push(buf[i]);
        i = i + 1;
        assert(name@ =~= buf@.subrange(start as int, i as int));
    }
    assert(buf@.subrange(start as int, stop as int) =~= trim_nul(
        buf@.subrange(start as int, end as int),
    ));
    Some(name)
}

} // verus!
