use vstd::prelude::*;
use crate::bytes::{u16_le_at, u32_le_at, read_u16_le, read_u32_le};

verus! {

/// The archive signature, "MPQ" followed by 0x1A, as a little-endian word.
pub const MAGIC: u32 = 0x1A51504D;

/// Interval of the bounded header search, and alignment of a shifted header.
pub const HEADER_STEP: usize = 0x200;

/// Byte length of the version-1 header fields this engine reads.
pub const HEADER_LEN: usize = 32;

/// Largest accepted sector-size shift: bounds a sector to a sane power of
/// two (512 bytes times at most 2^15).
pub const MAX_SECTOR_SHIFT: u16 = 15;

/// Largest accepted table entry count.
pub const MAX_TABLE_ENTRIES: u32 = 0x100000;

/// The parsed archive header. `base` is the offset inside the container
/// bytes where the header was found; all table positions are relative to it.
#[derive(Clone, Copy, Debug, PartialEq, Eq, Structural)]
pub struct ArchiveHeader {
    pub base: u32,
    pub header_size: u32,
    pub archive_size: u32,
    pub version: u16,
    pub sector_shift: u16,
    pub hash_pos: u32,
    pub block_pos: u32,
    pub hash_count: u32,
    pub block_count: u32,
}

/// Whether `x` is a power of two.
pub open spec fn is_pow2(x: u32) -> bool {
    x > 0 && x & ((x - 1) as u32) == 0
}

/// The header fields stored at offset `off` of `data`.
pub open spec fn header_at(data: Seq<u8>, off: int) -> ArchiveHeader {
    ArchiveHeader {
        base: off as u32,
        header_size: u32_le_at(data, off + 4),
        archive_size: u32_le_at(data, off + 8),
        version: u16_le_at(data, off + 12),
        sector_shift: u16_le_at(data, off + 14),
        hash_pos: u32_le_at(data, off + 16),
        block_pos: u32_le_at(data, off + 20),
        hash_count: u32_le_at(data, off + 24),
        block_count: u32_le_at(data, off + 28),
    }
}

/// Whether a well-formed header sits at offset `off` of `data`: recognized
/// signature, recognized version, sane sector shift, a power-of-two hash
/// table, and both tables inside the container's bounds.
pub open spec fn header_valid_at(data: Seq<u8>, off: int) -> bool {
    let h = header_at(data, off);
    &&& 0 <= off <= 0xFFFFFFFF
    &&& off + HEADER_LEN <= data.len()
    &&& u32_le_at(data, off) == MAGIC
    &&& h.version <= 3
    &&& h.sector_shift <= MAX_SECTOR_SHIFT
    &&& is_pow2(h.hash_count)
    &&& h.hash_count <= MAX_TABLE_ENTRIES
    &&& h.block_count <= MAX_TABLE_ENTRIES
    &&& off + h.hash_pos + 16 * h.hash_count <= data.len()
    &&& off + h.block_pos + 16 * h.block_count <= data.len()
}

/// The first well-formed header at or after `off`, scanning in fixed
/// increments; the bounded search of a shifted header.
pub open spec fn find_header_from(data: Seq<u8>, off: int) -> Option<int>
    decreases data.len() + HEADER_STEP - off,
{
    if off < 0 || off + HEADER_LEN > data.len() {
        None
    } else if header_valid_at(data, off) {
        Some(off)
    } else {
        find_header_from(data, off + HEADER_STEP)
    }
}

/// Where the archive header is found: only at the container start when the
/// search is restricted, else at the first aligned offset that carries one.
pub open spec fn find_header_spec(data: Seq<u8>, no_search: bool) -> Option<int> {
    if no_search {
        if data.len() >= HEADER_LEN && header_valid_at(data, 0) {
            Some(0)
        } else {
            None
        }
    } else {
        find_header_from(data, 0)
    }
}

/// Check whether a well-formed header sits at offset `off`, and parse it.
pub fn parse_header_at(data: &[u8], off: usize) -> (r: Option<ArchiveHeader>)
    ensures
        header_valid_at(data@, off as int) ==> r == Some(header_at(data@, off as int)),
        !header_valid_at(data@, off as int) ==> r is None,
{
    let len = data.len();
    if off > len || len - off < HEADER_LEN {
        return None;
    }
    if off > 0xFFFFFFFF {
        return None;
    }
    if read_u32_le(data, off) != MAGIC {
        return None;
    }
    let h = ArchiveHeader {
        base: off as u32,
        header_size: read_u32_le(data, off + 4),
        archive_size: read_u32_le(data, off + 8),
        version: read_u16_le(data, off + 12),
        sector_shift: read_u16_le(data, off + 14),
        hash_pos: read_u32_le(data, off + 16),
        block_pos: read_u32_le(data, off + 20),
        hash_count: read_u32_le(data, off + 24),
        block_count: read_u32_le(data, off + 28),
    };
    if h.version > 3 || h.sector_shift > MAX_SECTOR_SHIFT {
        return None;
    }
    if h.hash_count == 0 || h.hash_count & (h.hash_count - 1) != 0 {
        return None;
    }
    if h.hash_count > MAX_TABLE_ENTRIES || h.block_count > MAX_TABLE_ENTRIES {
        return None;
    }
    let off64 = off as u64;
    if off64 + (h.hash_pos as u64) + 16 * (h.hash_count as u64) > len as u64 {
        return None;
    }
    if off64 + (h.block_pos as u64) + 16 * (h.block_count as u64) > len as u64 {
        return None;
    }
    Some(h)
}

/// Locate the archive header: at the container start, or by the bounded
/// aligned search when `no_search` is off.
pub fn find_header(data: &[u8], no_search: bool) -> (r: Option<ArchiveHeader>)
    ensures
        match find_header_spec(data@, no_search) {
            Some(off) => r == Some(header_at(data@, off)) && header_valid_at(data@, off),
            None => r is None,
        },
{
    if no_search {
        return parse_header_at(data, 0);
    }
    let len = data.len();
    let mut off: usize = 0;
    loop
        invariant
            !no_search,
            len == data@.len(),
            off <= len,
            find_header_from(data@, 0) == find_header_from(data@, off as int),
        decreases len + HEADER_STEP - off,
    {
        if len - off < HEADER_LEN {
            return None;
        }
        match parse_header_at(data, off) {
            Some(h) => {
                assert(header_valid_at(data@, off as int));
                assert(find_header_from(data@, off as int) == Some(off as int));
                return Some(h);
            },
            None => {},
        }
        if len - off < HEADER_STEP + HEADER_LEN {
            assert(find_header_from(data@, off + HEADER_STEP) is None);
            return None;
        }
        off = off + HEADER_STEP;
    }
}

} // verus!
