use vstd::prelude::*;
use vstd::string::StringSliceAdditionalSpecFns;
use crate::errors::ErrorKind;
use crate::crypt::{CryptTable, HashType, hash_of, hash_name, decrypt_seq, encrypt_seq, decrypt_block, encrypt_block, lemma_decrypt_encrypt, lemma_decrypt_len};
use crate::bytes::{words_le_at, read_words_le, u32_le_at, u16_le_at, push_u32_le, push_u16_le, push_words_le, write_u32_at, u32_le_bytes};
use crate::header::{ArchiveHeader, header_at, header_valid_at, find_header_spec, find_header, is_pow2, MAGIC};
use crate::tables::{
    HashEntry, BlockEntry, hash_table_of, block_table_of, parse_hash_table, parse_block_table,
    hash_table_words, block_table_words, lookup_spec, lookup, probe_match, probe_path_to,
    lemma_path_extend, lemma_insert_probe, BLOCK_EMPTY, BLOCK_DELETED,
    FLAG_EXISTS, FLAG_DELETE_MARKER, FLAG_SINGLE_UNIT, FLAG_COMPRESS, FLAG_IMPLODE,
};
use crate::codec::{encode_sector, decode_sector_spec};

verus! {

/// Open-time behavior switches, mirroring the container format's options.
#[derive(Clone, Copy, Debug, PartialEq, Eq, Structural)]
pub enum OpenFlags {
    /// Do not consult the archive's list file.
    NoListFile,
    /// Do not consult the archive's attributes file.
    NoAttributes,
    /// Accept a header only at the very start of the container.
    NoHeaderSearch,
    /// Parse the header with the first format revision's layout.
    ForceMPQ1,
    /// Refuse an archive that carries no list file.
    ForceListFile,
    /// Verify stored sector checksums while reading.
    CheckSectorCRC,
    /// Open the archive as a patch layer.
    Patch,
    /// Refuse operations that would grow the archive.
    ReadOnly,
}

/// What a name lookup found: a live block-table index, an explicit deletion
/// (which must not fall through to lower patch layers), or nothing.
#[derive(Clone, Copy, Debug, PartialEq, Eq, Structural)]
pub enum Resolution {
    Found(usize),
    Tombstone,
    Absent,
}

/// The byte sequence of the fixed name whose derived key encrypts the
/// on-disk hash table.
pub open spec fn hash_table_name() -> Seq<u8> {
    seq![0x28u8, 0x68, 0x61, 0x73, 0x68, 0x20, 0x74, 0x61, 0x62, 0x6C, 0x65, 0x29]
}

/// The byte sequence of the fixed name whose derived key encrypts the
/// on-disk block table.
pub open spec fn block_table_name() -> Seq<u8> {
    seq![0x28u8, 0x62, 0x6C, 0x6F, 0x63, 0x6B, 0x20, 0x74, 0x61, 0x62, 0x6C, 0x65, 0x29]
}

/// The byte sequence of the list-file pseudo-name.
pub open spec fn listfile_name() -> Seq<u8> {
    seq![0x28u8, 0x6C, 0x69, 0x73, 0x74, 0x66, 0x69, 0x6C, 0x65, 0x29]
}

/// The publicly fixed key of the on-disk hash table.
pub open spec fn hash_table_key() -> u32 {
    hash_of(hash_table_name(), 3)
}

/// The publicly fixed key of the on-disk block table.
pub open spec fn block_table_key() -> u32 {
    hash_of(block_table_name(), 3)
}

/// Compute the fixed hash-table key.
fn hash_table_key_exec(table: &CryptTable) -> (r: u32)
    requires
        table.wf(),
    ensures
        r == hash_table_key(),
{
    let mut v: Vec<u8> = Vec::new();
    v.push(0x28);
    v.push(0x68);
    v.push(0x61);
    v.push(0x73);
    v.push(0x68);
    v.push(0x20);
    v.push(0x74);
    v.push(0x61);
    v.push(0x62);
    v.push(0x6C);
    v.push(0x65);
    v.push(0x29);
    proof {
        assert(v@ =~= hash_table_name());
    }
    hash_name(table, v.as_slice(), HashType::FileKey)
}

/// Compute the fixed block-table key.
fn block_table_key_exec(table: &CryptTable) -> (r: u32)
    requires
        table.wf(),
    ensures
        r == block_table_key(),
{
    let mut v: Vec<u8> = Vec::new();
    v.push(0x28);
    v.push(0x62);
    v.push(0x6C);
    v.push(0x6F);
    v.push(0x63);
    v.push(0x6B);
    v.push(0x20);
    v.push(0x74);
    v.push(0x61);
    v.push(0x62);
    v.push(0x6C);
    v.push(0x65);
    v.push(0x29);
    proof {
        assert(v@ =~= block_table_name());
    }
    hash_name(table, v.as_slice(), HashType::FileKey)
}

/// Whether the open-time flags restrict the header to the container start.
pub open spec fn no_search_of(flags: Option<OpenFlags>) -> bool {
    flags == Some(OpenFlags::NoHeaderSearch)
}

/// Whether the open-time flags demand a list file.
pub open spec fn force_listfile_of(flags: Option<OpenFlags>) -> bool {
    flags == Some(OpenFlags::ForceListFile)
}

/// The decrypted hash-table words stored for header `h` in `data`.
pub open spec fn spec_hash_words(data: Seq<u8>, h: ArchiveHeader) -> Seq<u32> {
    decrypt_seq(
        words_le_at(data, h.base + h.hash_pos, (4 * h.hash_count) as nat),
        hash_table_key(),
        0xEEEEEEEE,
    )
}

/// The decrypted block-table words stored for header `h` in `data`.
pub open spec fn spec_block_words(data: Seq<u8>, h: ArchiveHeader) -> Seq<u32> {
    decrypt_seq(
        words_le_at(data, h.base + h.block_pos, (4 * h.block_count) as nat),
        block_table_key(),
        0xEEEEEEEE,
    )
}

/// The hash table stored for header `h` in `data`.
pub open spec fn spec_hash_table(data: Seq<u8>, h: ArchiveHeader) -> Seq<HashEntry> {
    hash_table_of(spec_hash_words(data, h))
}

/// The block table stored for header `h` in `data`.
pub open spec fn spec_block_table(data: Seq<u8>, h: ArchiveHeader) -> Seq<BlockEntry> {
    block_table_of(spec_block_words(data, h))
}

/// A hash-table slot either carries a sentinel or indexes the block table.
pub open spec fn slot_ok(e: HashEntry, nblocks: int) -> bool {
    e.block_index == BLOCK_EMPTY || e.block_index == BLOCK_DELETED || e.block_index < nblocks
}

/// A block entry's stored bytes lie inside the container.
pub open spec fn block_ok(e: BlockEntry, base: int, dlen: int) -> bool {
    base + e.file_pos + e.csize <= dlen
}

/// Every table entry parsed from `data` under header `h` is internally
/// consistent: slots index the block table, blocks stay inside the bounds.
pub open spec fn tables_ok(data: Seq<u8>, h: ArchiveHeader) -> bool {
    let ht = spec_hash_table(data, h);
    let bt = spec_block_table(data, h);
    &&& forall|i: int| 0 <= i < ht.len() ==> slot_ok(#[trigger] ht[i], bt.len() as int)
    &&& forall|i: int| 0 <= i < bt.len() ==> block_ok(#[trigger] bt[i], h.base as int, data.len() as int)
}

/// Where a name resolves against a hash table and block table: the probe
/// walk, then the block entry's own liveness. A delete marker is a
/// tombstone, which callers must not treat as a mere absence.
pub open spec fn resolve_in(
    ht: Seq<HashEntry>,
    bt: Seq<BlockEntry>,
    name: Seq<u8>,
    locale: u16,
    platform: u16,
) -> Resolution {
    if ht.len() == 0 {
        Resolution::Absent
    } else {
        match lookup_spec(
            ht,
            hash_of(name, 1),
            hash_of(name, 2),
            locale,
            platform,
            (hash_of(name, 0) as int) % (ht.len() as int),
        ) {
            None => Resolution::Absent,
            Some(i) => {
                let bi = ht[i].block_index;
                if bi == BLOCK_EMPTY || bi == BLOCK_DELETED || bi >= bt.len() {
                    Resolution::Absent
                } else if bt[bi as int].flags & FLAG_DELETE_MARKER != 0 {
                    Resolution::Tombstone
                } else if bt[bi as int].flags & FLAG_EXISTS == 0 {
                    Resolution::Absent
                } else {
                    Resolution::Found(bi as usize)
                }
            },
        }
    }
}

/// The slot a name's probe settles on at the neutral locale, if any: the
/// hash-table position that a lookup for it would stop at.
pub open spec fn name_slot(ht: Seq<HashEntry>, name: Seq<u8>) -> Option<int> {
    if ht.len() == 0 {
        None
    } else {
        lookup_spec(
            ht,
            hash_of(name, 1),
            hash_of(name, 2),
            0,
            0,
            (hash_of(name, 0) as int) % (ht.len() as int),
        )
    }
}

/// Whether the hash table has any empty or deleted slot left.
pub open spec fn has_free_slot(ht: Seq<HashEntry>) -> bool {
    exists|j: int|
        0 <= j < ht.len() && ((#[trigger] ht[j]).block_index == BLOCK_EMPTY || ht[j].block_index
            == BLOCK_DELETED)
}

/// The slot `t` hops along a probe path that starts at `start` in a table
/// of `n` slots.
pub open spec fn wrap_at(n: int, start: int, t: int) -> int {
    if start + t >= n {
        start + t - n
    } else {
        start + t
    }
}

/// Whether `data` parses as an archive under `flags`, list-file demand
/// aside: a header is found and both tables are consistent.
pub open spec fn open_base_ok(data: Seq<u8>, flags: Option<OpenFlags>) -> bool {
    &&& data.len() <= 0xFFFFFFFF
    &&& match find_header_spec(data, no_search_of(flags)) {
        Some(off) => tables_ok(data, header_at(data, off)),
        None => false,
    }
}

/// Whether the archive found in `data` carries a live list file.
pub open spec fn listfile_present(data: Seq<u8>, flags: Option<OpenFlags>) -> bool {
    match find_header_spec(data, no_search_of(flags)) {
        Some(off) => {
            let h = header_at(data, off);
            resolve_in(
                spec_hash_table(data, h),
                spec_block_table(data, h),
                listfile_name(),
                0,
                0,
            ) matches Resolution::Found(_)
        },
        None => false,
    }
}

/// Whether `open` accepts `data` under `flags`.
pub open spec fn open_ok(data: Seq<u8>, flags: Option<OpenFlags>) -> bool {
    open_base_ok(data, flags) && (force_listfile_of(flags) ==> listfile_present(data, flags))
}

/// Entering a live entry for a name at the slot its probe settles on makes
/// the name resolve to the appended block.
proof fn lemma_insert_resolves(
    ht0: Seq<HashEntry>,
    bt0: Seq<BlockEntry>,
    gname: Seq<u8>,
    si: int,
    e2: HashEntry,
    be: BlockEntry,
)
    requires
        0 < ht0.len(),
        0 <= si < ht0.len(),
        bt0.len() < 0x100000,
        e2 == (HashEntry {
            name_a: hash_of(gname, 1),
            name_b: hash_of(gname, 2),
            locale: 0,
            platform: 0,
            block_index: bt0.len() as u32,
        }),
        lookup_spec(
            ht0.update(si, e2),
            hash_of(gname, 1),
            hash_of(gname, 2),
            0,
            0,
            (hash_of(gname, 0) as int) % (ht0.len() as int),
        ) == Some(si),
    ensures
        resolve_in(ht0.update(si, e2), bt0.push(be), gname, 0, 0) == (if be.flags
            & FLAG_DELETE_MARKER != 0 {
            Resolution::Tombstone
        } else if be.flags & FLAG_EXISTS == 0 {
            Resolution::Absent
        } else {
            Resolution::Found(bt0.len() as usize)
        }),
{
    let ht1 = ht0.update(si, e2);
    let bt1 = bt0.push(be);
    let bi = bt0.len() as u32;
    assert(bi != BLOCK_EMPTY && bi != BLOCK_DELETED);
    assert(ht1[si].block_index == bi);
    assert(bt1[bi as int] == be);
}

/// Growing the block table and entering its index in a free slot keeps both
/// tables internally consistent.
proof fn lemma_tables_grow(
    ht0: Seq<HashEntry>,
    bt0: Seq<BlockEntry>,
    si: int,
    e2: HashEntry,
    be: BlockEntry,
    base: int,
    dlen0: int,
    dlen1: int,
)
    requires
        0 <= si < ht0.len(),
        forall|j: int| 0 <= j < ht0.len() ==> slot_ok(#[trigger] ht0[j], bt0.len() as int),
        forall|j: int| 0 <= j < bt0.len() ==> block_ok(#[trigger] bt0[j], base, dlen0),
        e2.block_index == bt0.len() as u32,
        bt0.len() < 0x100000,
        block_ok(be, base, dlen1),
        dlen0 <= dlen1,
    ensures
        forall|j: int|
            0 <= j < ht0.update(si, e2).len() ==> slot_ok(
                #[trigger] ht0.update(si, e2)[j],
                bt0.push(be).len() as int,
            ),
        forall|j: int|
            0 <= j < bt0.push(be).len() ==> block_ok(#[trigger] bt0.push(be)[j], base, dlen1),
{
    let ht1 = ht0.update(si, e2);
    let bt1 = bt0.push(be);
    assert forall|j: int| 0 <= j < ht1.len() implies slot_ok(
        #[trigger] ht1[j],
        bt1.len() as int,
    ) by {
        if j != si {
            assert(ht1[j] == ht0[j]);
            assert(slot_ok(ht0[j], bt0.len() as int));
        }
    }
    assert forall|j: int| 0 <= j < bt1.len() implies block_ok(#[trigger] bt1[j], base, dlen1) by {
        if j < bt0.len() {
            assert(bt1[j] == bt0[j]);
            assert(block_ok(bt0[j], base, dlen0));
        }
    }
}

/// An open archive: the parsed header and tables, the container bytes, and
/// the engine's substitution table. Patch overlays chain whole archives
/// (see the patch module); locale and priority are explicit state, not
/// process-wide configuration.
pub struct MPQ {
    pub data: Vec<u8>,
    pub header: ArchiveHeader,
    pub hash_table: Vec<HashEntry>,
    pub block_table: Vec<BlockEntry>,
    pub table: CryptTable,
    pub live: bool,
    pub locale: u32,
    pub priority: u32,
    pub read_only: bool,
}

impl MPQ {
    /// Structural consistency of an archive value: the substitution table is
    /// the format's, the in-memory tables agree with the header counts,
    /// every slot indexes the block table, and every block stays inside the
    /// container bytes.
    pub open spec fn wf(&self) -> bool {
        &&& self.table.wf()
        &&& self.data@.len() <= 0xFFFFFFFF
        &&& self.header.base + 32 <= self.data@.len()
        &&& self.hash_table@.len() == self.header.hash_count
        &&& self.block_table@.len() == self.header.block_count
        &&& is_pow2(self.header.hash_count)
        &&& self.header.sector_shift <= 15
        &&& self.header.version <= 3
        &&& self.header.hash_count <= 0x100000
        &&& self.block_table@.len() <= 0x100000
        &&& u32_le_at(self.data@, self.header.base as int) == MAGIC
        &&& u16_le_at(self.data@, self.header.base + 12) == self.header.version
        &&& u16_le_at(self.data@, self.header.base + 14) == self.header.sector_shift
        &&& forall|i: int|
            0 <= i < self.hash_table@.len() ==> slot_ok(
                #[trigger] self.hash_table@[i],
                self.block_table@.len() as int,
            )
        &&& forall|i: int|
            0 <= i < self.block_table@.len() ==> block_ok(
                #[trigger] self.block_table@[i],
                self.header.base as int,
                self.data@.len() as int,
            )
    }

    /// Where `name` resolves in this archive.
    pub open spec fn resolve_spec(&self, name: Seq<u8>, locale: u16, platform: u16) -> Resolution {
        resolve_in(self.hash_table@, self.block_table@, name, locale, platform)
    }

    /// Parse an archive out of its container bytes. The header is located
    /// (or demanded at the start), both tables are read and decrypted with
    /// their publicly fixed keys before interpretation, and every entry is
    /// bounds-checked; a missing list file is refused only on demand.
    pub fn open(data: Vec<u8>, priority: Option<u32>, flags: Option<OpenFlags>) -> (r: Result<
        MPQ,
        ErrorKind,
    >)
        ensures
            match r {
                Ok(a) => {
                    &&& open_ok(data@, flags)
                    &&& a.wf()
                    &&& a.live
                    &&& !a.is_closed_spec()
                    &&& a.locale == 0
                    &&& a.priority == (match priority {
                        Some(p) => p,
                        None => 0u32,
                    })
                    &&& a.read_only == (flags == Some(OpenFlags::ReadOnly))
                    &&& a.data@ == data@
                    &&& match find_header_spec(data@, no_search_of(flags)) {
                        Some(off) => {
                            &&& a.header == header_at(data@, off)
                            &&& a.hash_table@ == spec_hash_table(data@, a.header)
                            &&& a.block_table@ == spec_block_table(data@, a.header)
                        },
                        None => false,
                    }
                },
                Err(e) => {
                    &&& !open_ok(data@, flags)
                    &&& (e == ErrorKind::BadFormat || e == ErrorKind::NotFound)
                    &&& (e == ErrorKind::NotFound <==> open_base_ok(data@, flags)
                        && force_listfile_of(flags) && !listfile_present(data@, flags))
                },
            },
    {
        let table = CryptTable::new();
        let no_search = match flags {
            Some(OpenFlags::NoHeaderSearch) => true,
            _ => false,
        };
        let force_listfile = match flags {
            Some(OpenFlags::ForceListFile) => true,
            _ => false,
        };
        let read_only = match flags {
            Some(OpenFlags::ReadOnly) => true,
            _ => false,
        };
        if data.len() > 0xFFFFFFFF {
            return Err(ErrorKind::BadFormat);
        }
        let header = match find_header(data.as_slice(), no_search) {
            Some(h) => h,
            None => {
                return Err(ErrorKind::BadFormat);
            },
        };
        proof {
            assert(find_header_spec(data@, no_search_of(flags)) matches Some(off) && header
                == header_at(data@, off) && header_valid_at(data@, off));
        }
        let base = header.base as usize;
        let hk = hash_table_key_exec(&table);
        let bk = block_table_key_exec(&table);
        let mut hw = read_words_le(
            data.as_slice(),
            base + (header.hash_pos as usize),
            4 * (header.hash_count as usize),
        );
        proof {
            crate::crypt::lemma_decrypt_len(
                words_le_at(data@, header.base + header.hash_pos, (4 * header.hash_count) as nat),
                hash_table_key(),
                0xEEEEEEEE,
            );
        }
        decrypt_block(&table, &mut hw, hk);
        let hash_table = parse_hash_table(&hw);
        let mut bw = read_words_le(
            data.as_slice(),
            base + (header.block_pos as usize),
            4 * (header.block_count as usize),
        );
        proof {
            crate::crypt::lemma_decrypt_len(
                words_le_at(data@, header.base + header.block_pos, (4 * header.block_count) as nat),
                block_table_key(),
                0xEEEEEEEE,
            );
        }
        decrypt_block(&table, &mut bw, bk);
        let block_table = parse_block_table(&bw);
        proof {
            assert(hash_table@ == spec_hash_table(data@, header));
            assert(block_table@ == spec_block_table(data@, header));
            assert(hash_table@.len() == header.hash_count);
            assert(block_table@.len() == header.block_count);
        }
        // Validate every slot and block against the container's bounds.
        let ghost off = header.base as int;
        proof {
            assert(find_header_spec(data@, no_search_of(flags)) == Some(off));
        }
        let nblocks = block_table.len();
        let mut i: usize = 0;
        while i < hash_table.len()
            invariant
                data@.len() <= 0xFFFFFFFF,
                find_header_spec(data@, no_search_of(flags)) == Some(off),
                header == header_at(data@, off),
                hash_table@ == spec_hash_table(data@, header),
                block_table@ == spec_block_table(data@, header),
                nblocks == block_table@.len(),
                i <= hash_table@.len(),
                forall|j: int|
                    0 <= j < i ==> slot_ok(#[trigger] hash_table@[j], block_table@.len() as int),
            decreases hash_table@.len() - i,
        {
            let e = &hash_table[i];
            if e.block_index != BLOCK_EMPTY && e.block_index != BLOCK_DELETED && e.block_index
                as usize >= nblocks {
                return Err(ErrorKind::BadFormat);
            }
            i = i + 1;
        }
        let dlen = data.len();
        let mut i: usize = 0;
        while i < block_table.len()
            invariant
                data@.len() <= 0xFFFFFFFF,
                find_header_spec(data@, no_search_of(flags)) == Some(off),
                header == header_at(data@, off),
                hash_table@ == spec_hash_table(data@, header),
                block_table@ == spec_block_table(data@, header),
                dlen == data@.len(),
                base == header.base,
                i <= block_table@.len(),
                forall|j: int|
                    0 <= j < i ==> block_ok(
                        #[trigger] block_table@[j],
                        header.base as int,
                        data@.len() as int,
                    ),
            decreases block_table@.len() - i,
        {
            let e = &block_table[i];
            if (base as u64) + (e.file_pos as u64) + (e.csize as u64) > dlen as u64 {
                return Err(ErrorKind::BadFormat);
            }
            i = i + 1;
        }
        proof {
            assert(tables_ok(data@, header));
        }
        let a = MPQ {
            data,
            header,
            hash_table,
            block_table,
            table,
            live: true,
            locale: 0,
            priority: match priority {
                Some(p) => p,
                None => 0,
            },
            read_only,
        };
        if force_listfile {
            let mut lf: Vec<u8> = Vec::new();
            lf.push(0x28);
            lf.push(0x6C);
            lf.push(0x69);
            lf.push(0x73);
            lf.push(0x74);
            lf.push(0x66);
            lf.push(0x69);
            lf.push(0x6C);
            lf.push(0x65);
            lf.push(0x29);
            proof {
                assert(lf@ =~= listfile_name());
            }
            let res = a.resolve_entry(lf.as_slice(), 0, 0);
            match res {
                Resolution::Found(_) => {},
                _ => {
                    return Err(ErrorKind::NotFound);
                },
            }
        }
        Ok(a)
    }

    /// Whether the archive has been closed.
    pub open spec fn is_closed_spec(&self) -> bool {
        !self.live
    }

    /// Release the archive: every handle derived from it becomes invalid.
    /// Closing an already closed archive reports failure, as releasing a
    /// dead handle does.
    pub fn close(&mut self) -> (r: bool)
        ensures
            final(self).is_closed_spec(),
            r == !old(self).is_closed_spec(),
            final(self).data@ == old(self).data@,
            final(self).hash_table@ == old(self).hash_table@,
            final(self).block_table@ == old(self).block_table@,
            final(self).header == old(self).header,
            old(self).wf() ==> final(self).wf(),
    {
        let was = self.live;
        self.live = false;
        was
    }

    /// Whether the archive has been closed.
    pub fn is_closed(&self) -> (r: bool)
        ensures
            r == self.is_closed_spec(),
    {
        !self.live
    }

    /// Set the archive's lookup locale, returning the new value. Locale is
    /// explicit per-archive state, not process-wide configuration.
    pub fn set_locale(&mut self, locale: u32) -> (r: u32)
        ensures
            final(self).locale == locale,
            r == locale,
            final(self).live == old(self).live,
            final(self).data@ == old(self).data@,
            final(self).hash_table@ == old(self).hash_table@,
            final(self).block_table@ == old(self).block_table@,
            final(self).header == old(self).header,
            final(self).table == old(self).table,
            final(self).priority == old(self).priority,
            final(self).read_only == old(self).read_only,
    {
        self.locale = locale;
        locale
    }

    /// The archive's lookup locale.
    pub fn get_locale(&self) -> (r: u32)
        ensures
            r == self.locale,
    {
        self.locale
    }

    /// The engine's format revision string.
    pub fn version() -> (r: String)
        ensures
            r@ == "9.25"@,
    {
        "9.25".to_owned()
    }


    /// Create a new, empty, writable archive in memory, its hash table sized
    /// for `max_file_count` files (rounded up to a power of two, at least
    /// four slots). Nothing resolves in a fresh archive.
    #[verifier::rlimit(100)]
    #[verifier::spinoff_prover]
    pub fn create(max_file_count: u32) -> (r: Result<MPQ, ErrorKind>)
        ensures
            match r {
                Ok(a) => {
                    &&& a.wf()
                    &&& a.live
                    &&& !a.read_only
                    &&& a.locale == 0
                    &&& a.header.base == 0
                    &&& a.block_table@.len() == 0
                    &&& a.hash_table@.len() >= 4
                    &&& a.hash_table@.len() >= max_file_count
                    &&& (a.hash_table@.len() > 4 ==> a.hash_table@.len() < 2 * max_file_count)
                    &&& forall|j: int|
                        0 <= j < a.hash_table@.len() ==> (#[trigger] a.hash_table@[j]).block_index
                            == BLOCK_EMPTY
                },
                Err(e) => e == ErrorKind::InvalidParameter && max_file_count > 0x80000,
            },
            max_file_count <= 0x80000 ==> r is Ok,
    {
        if max_file_count > 0x80000 {
            return Err(ErrorKind::InvalidParameter);
        }
        let mut n: u32 = 4;
        assert((4u32 & ((4u32 - 1) as u32)) == 0) by (bit_vector);
        while n < max_file_count
            invariant
                is_pow2(n),
                4 <= n <= 0x80000,
                max_file_count <= 0x80000,
                n == 4 || n < 2 * max_file_count,
            decreases 0x80000 - n,
        {
            let n2: u32 = 2 * n;
            assert((n2 & ((n2 - 1) as u32)) == 0 && n2 <= 0x80000) by (bit_vector)
                requires
                    n2 == 2 * n,
                    n & ((n - 1) as u32) == 0,
                    1 <= n,
                    n < 0x80000,
            ;
            n = n2;
        }
        let mut data: Vec<u8> = Vec::new();
        data.push(0x4D);
        data.push(0x50);
        data.push(0x51);
        data.push(0x1A);
        data.push(0x20);
        data.push(0);
        data.push(0);
        data.push(0);
        data.push(0x20);
        data.push(0);
        data.push(0);
        data.push(0);
        data.push(0);
        data.push(0);
        data.push(3);
        data.push(0);
        data.push(0x20);
        data.push(0);
        data.push(0);
        data.push(0);
        data.push(0x20);
        data.push(0);
        data.push(0);
        data.push(0);
        push_u32_le(&mut data, n);
        push_u32_le(&mut data, 0);
        proof {
            assert(data@.len() == 32);
            assert(data@[0] == 0x4D && data@[1] == 0x50 && data@[2] == 0x51 && data@[3] == 0x1A);
            assert(data@[12] == 0 && data@[13] == 0 && data@[14] == 3 && data@[15] == 0);
            assert(((0x4Du8 as u32) | ((0x50u8 as u32) << 8) | ((0x51u8 as u32) << 16) | ((
            0x1Au8 as u32) << 24)) == 0x1A51504D) by (bit_vector);
            assert(((0u8 as u16) | ((0u8 as u16) << 8)) == 0) by (bit_vector);
            assert(((3u8 as u16) | ((0u8 as u16) << 8)) == 3) by (bit_vector);
        }
        let header = ArchiveHeader {
            base: 0,
            header_size: 32,
            archive_size: 32,
            version: 0,
            sector_shift: 3,
            hash_pos: 32,
            block_pos: 32,
            hash_count: n,
            block_count: 0,
        };
        let mut hash_table: Vec<HashEntry> = Vec::new();
        let mut i: usize = 0;
        while i < n as usize
            invariant
                i <= n,
                hash_table@.len() == i,
                forall|j: int|
                    0 <= j < i ==> (#[trigger] hash_table@[j]).block_index == BLOCK_EMPTY,
            decreases n - i,
        {
            hash_table.push(
                HashEntry {
                    name_a: 0xFFFFFFFF,
                    name_b: 0xFFFFFFFF,
                    locale: 0xFFFF,
                    platform: 0xFFFF,
                    block_index: BLOCK_EMPTY,
                },
            );
            i = i + 1;
        }
        let a = MPQ {
            data,
            header,
            hash_table,
            block_table: Vec::new(),
            table: CryptTable::new(),
            live: true,
            locale: 0,
            priority: 0,
            read_only: false,
        };
        Ok(a)
    }

    /// Append an encoded single-unit payload and enter it in both tables.
    #[verifier::rlimit(100)]
    #[verifier::spinoff_prover]
    fn insert_file(
        &mut self,
        si: usize,
        a: u32,
        b: u32,
        contents: &[u8],
        payload: Vec<u8>,
        packed: bool,
        Ghost(gname): Ghost<Seq<u8>>,
    )
        requires
            old(self).wf(),
            si < old(self).hash_table@.len(),
            old(self).hash_table@[si as int].block_index == BLOCK_EMPTY || old(
                self,
            ).hash_table@[si as int].block_index == BLOCK_DELETED,
            old(self).data@.len() + payload@.len() <= 0xFFFFFFFF,
            old(self).block_table@.len() < 0x100000,
            decode_sector_spec(payload@, contents@.len() as nat, packed) == Ok::<
                Seq<u8>,
                ErrorKind,
            >(contents@),
            contents@.len() <= 0xFFFFFFFF,
            a == hash_of(gname, 1),
            b == hash_of(gname, 2),
            forall|e2: HashEntry|
                probe_match(e2, a, b) ==> #[trigger] lookup_spec(
                    old(self).hash_table@.update(si as int, e2),
                    a,
                    b,
                    0,
                    0,
                    (hash_of(gname, 0) as int) % (old(self).hash_table@.len() as int),
                ) == Some(si as int),
        ensures
            final(self).wf(),
            final(self).live == old(self).live,
            final(self).read_only == old(self).read_only,
            final(self).locale == old(self).locale,
            final(self).priority == old(self).priority,
            final(self).hash_table@.len() == old(self).hash_table@.len(),
            final(self).hash_table@ == old(self).hash_table@.update(
                si as int,
                HashEntry {
                    name_a: a,
                    name_b: b,
                    locale: 0,
                    platform: 0,
                    block_index: old(self).block_table@.len() as u32,
                },
            ),
            final(self).block_table@.len() == old(self).block_table@.len() + 1,
            final(self).block_table@ == old(self).block_table@.push(
                final(self).block_table@.last(),
            ),
            final(self).data@.subrange(0, old(self).data@.len() as int) == old(self).data@,
            ({
                let be = final(self).block_table@.last();
                &&& be.fsize == contents@.len()
                &&& be.flags & FLAG_EXISTS != 0
                &&& be.flags & FLAG_SINGLE_UNIT != 0
                &&& be.flags & crate::tables::FLAG_ENCRYPTED == 0
                &&& be.flags & FLAG_DELETE_MARKER == 0
                &&& be.file_pos == old(self).data@.len() - old(self).header.base
                &&& be.csize == final(self).data@.len() - old(self).data@.len()
                &&& decode_sector_spec(
                    final(self).data@.subrange(
                        old(self).data@.len() as int,
                        final(self).data@.len() as int,
                    ),
                    contents@.len() as nat,
                    be.flags & FLAG_COMPRESS != 0 || be.flags & FLAG_IMPLODE != 0,
                ) == Ok::<Seq<u8>, ErrorKind>(contents@)
            }),
            final(self).header.base == old(self).header.base,
            final(self).header.hash_count == old(self).header.hash_count,
            final(self).header.sector_shift == old(self).header.sector_shift,
            final(self).resolve_spec(gname, 0, 0) == Resolution::Found(
                old(self).block_table@.len() as usize,
            ),
    {
        let ghost old_len = self.data@.len() as int;
        let fp = (self.data.len() - self.header.base as usize) as u32;
        let plen = payload.len();
        proof {
            assert(old(self).data@ + payload@.subrange(0, 0) =~= old(self).data@);
        }
        let mut k: usize = 0;
        while k < plen
            invariant
                k <= plen,
                plen == payload@.len(),
                self.data@ == old(self).data@ + payload@.subrange(0, k as int),
                old(self).data@.len() + plen <= 0xFFFFFFFF,
                self.hash_table@ == old(self).hash_table@,
                self.block_table@ == old(self).block_table@,
                self.header == old(self).header,
                self.live == old(self).live,
                self.table == old(self).table,
                self.read_only == old(self).read_only,
                self.locale == old(self).locale,
                self.priority == old(self).priority,
            decreases plen - k,
        {
            let byte = payload[k];
            let ghost pre = self.data@;
            self.data.push(byte);
            proof {
                assert(old(self).data@ + payload@.subrange(0, k + 1) =~= pre.push(byte));
            }
            k = k + 1;
        }
        proof {
            assert(payload@.subrange(0, plen as int) =~= payload@);
            assert(self.data@ == old(self).data@ + payload@);
            assert(self.data@.subrange(0, old_len) =~= old(self).data@);
            assert(self.data@.subrange(old_len, self.data@.len() as int) =~= payload@);
        }
        let flags: u32 = if packed {
            FLAG_EXISTS | FLAG_SINGLE_UNIT | FLAG_COMPRESS
        } else {
            FLAG_EXISTS | FLAG_SINGLE_UNIT
        };
        proof {
            assert(FLAG_EXISTS | FLAG_SINGLE_UNIT | FLAG_COMPRESS == 0x81000200u32
                && FLAG_EXISTS | FLAG_SINGLE_UNIT == 0x81000000u32) by (bit_vector);
            assert(0x81000200u32 & FLAG_EXISTS != 0 && 0x81000200u32 & FLAG_SINGLE_UNIT != 0
                && 0x81000200u32 & crate::tables::FLAG_ENCRYPTED == 0 && 0x81000200u32
                & FLAG_DELETE_MARKER == 0 && 0x81000200u32 & FLAG_COMPRESS != 0 && 0x81000200u32
                & FLAG_IMPLODE == 0) by (bit_vector);
            assert(0x81000000u32 & FLAG_EXISTS != 0 && 0x81000000u32 & FLAG_SINGLE_UNIT != 0
                && 0x81000000u32 & crate::tables::FLAG_ENCRYPTED == 0 && 0x81000000u32
                & FLAG_DELETE_MARKER == 0 && 0x81000000u32 & FLAG_COMPRESS == 0 && 0x81000000u32
                & FLAG_IMPLODE == 0) by (bit_vector);
        }
        let be = BlockEntry {
            file_pos: fp,
            csize: payload.len() as u32,
            fsize: contents.len() as u32,
            flags,
        };
        let bi = self.block_table.len() as u32;
        self.block_table.push(be);
        self.hash_table.set(
            si,
            HashEntry { name_a: a, name_b: b, locale: 0, platform: 0, block_index: bi },
        );
        self.header = ArchiveHeader {
            block_count: self.block_table.len() as u32,
            ..self.header
        };
        proof {
            let ht0 = old(self).hash_table@;
            let bt0 = old(self).block_table@;
            let e2 = HashEntry { name_a: a, name_b: b, locale: 0, platform: 0, block_index: bi };
            assert(self.block_table@ =~= bt0.push(be));
            assert(self.data@.subrange(old_len, self.data@.len() as int) =~= payload@);
            assert(self.hash_table@ =~= ht0.update(si as int, e2));
            assert(block_ok(be, self.header.base as int, self.data@.len() as int));
            lemma_tables_grow(
                ht0,
                bt0,
                si as int,
                e2,
                be,
                self.header.base as int,
                old(self).data@.len() as int,
                self.data@.len() as int,
            );
            assert(u32_le_at(self.data@, self.header.base as int) == u32_le_at(
                old(self).data@,
                self.header.base as int,
            ));
            assert(u16_le_at(self.data@, self.header.base + 12) == u16_le_at(
                old(self).data@,
                self.header.base + 12,
            ));
            assert(u16_le_at(self.data@, self.header.base + 14) == u16_le_at(
                old(self).data@,
                self.header.base + 14,
            ));
            assert(probe_match(e2, a, b));
            lemma_insert_resolves(ht0, bt0, gname, si as int, e2, be);
        }
    }

    /// After a failed lookup, writing a matching live entry into the first
    /// free slot on the probe path makes the lookup find that slot.
    proof fn lemma_find_slot_post(
        ht: Seq<HashEntry>,
        a: u32,
        b: u32,
        start: int,
        gsteps: nat,
        si: int,
    )
        requires
            ht.len() > 0,
            0 <= start < ht.len(),
            0 <= si < ht.len(),
            gsteps < ht.len(),
            lookup_spec(ht, a, b, 0, 0, start) is None,
            probe_path_to(ht, start, gsteps, si),
            ht[si].block_index == BLOCK_EMPTY || ht[si].block_index == BLOCK_DELETED,
        ensures
            forall|e2: HashEntry|
                probe_match(e2, a, b) ==> #[trigger] lookup_spec(
                    ht.update(si, e2),
                    a,
                    b,
                    0,
                    0,
                    start,
                ) == Some(si),
    {
        assert forall|e2: HashEntry| probe_match(e2, a, b) implies #[trigger] lookup_spec(
            ht.update(si, e2),
            a,
            b,
            0,
            0,
            start,
        ) == Some(si) by {
            lemma_insert_probe(ht, a, b, start, ht.len() as nat, gsteps, si, e2);
        }
    }

    /// A full probe cycle that saw only occupied slots covered every slot.
    proof fn lemma_no_free_slot(ht: Seq<HashEntry>, start: int)
        requires
            0 <= start < ht.len(),
            forall|t2: int|
                0 <= t2 < ht.len() ==> (#[trigger] ht[wrap_at(
                    ht.len() as int,
                    start,
                    t2,
                )]).block_index != BLOCK_EMPTY && ht[wrap_at(
                    ht.len() as int,
                    start,
                    t2,
                )].block_index != BLOCK_DELETED,
        ensures
            !has_free_slot(ht),
    {
        let n = ht.len() as int;
        assert forall|j: int|
            0 <= j < n implies !((#[trigger] ht[j]).block_index == BLOCK_EMPTY || ht[j].block_index
            == BLOCK_DELETED) by {
            let t2 = if j >= start {
                j - start
            } else {
                j + n - start
            };
            assert(0 <= t2 < n);
            assert(wrap_at(n, start, t2) == j);
            assert(ht[wrap_at(n, start, t2)].block_index != BLOCK_EMPTY && ht[wrap_at(
                n,
                start,
                t2,
            )].block_index != BLOCK_DELETED);
        }
    }

    /// Find the slot a new name is entered at: refuse a name that already
    /// resolves, then take the first empty or deleted slot on its probe
    /// path; a table with no free slot on that path is full.
    #[verifier::rlimit(100)]
    #[verifier::spinoff_prover]
    /// Walk a full probe cycle for the first empty or deleted slot, having
    /// already checked that the name's lookup came back empty.
    #[verifier::rlimit(100)]
    #[verifier::spinoff_prover]
    fn scan_free(&self, a: u32, b: u32, start: usize) -> (r: Option<usize>)
        requires
            1 <= self.hash_table@.len() <= 0x100000,
            start < self.hash_table@.len(),
            lookup_spec(self.hash_table@, a, b, 0, 0, start as int) is None,
        ensures
            match r {
                Some(si) => {
                    &&& si < self.hash_table@.len()
                    &&& (self.hash_table@[si as int].block_index == BLOCK_EMPTY
                        || self.hash_table@[si as int].block_index == BLOCK_DELETED)
                    &&& forall|e2: HashEntry|
                        probe_match(e2, a, b) ==> #[trigger] lookup_spec(
                            self.hash_table@.update(si as int, e2),
                            a,
                            b,
                            0,
                            0,
                            start as int,
                        ) == Some(si as int)
                },
                None => !has_free_slot(self.hash_table@),
            },
    {
        let n = self.hash_table.len();
        let ghost ht = self.hash_table@;
        let mut si: usize = n;
        let mut t: usize = 0;
        let ghost mut gsteps: int = 0;
        proof {
            assert(probe_path_to(ht, start as int, 0, wrap_at(n as int, start as int, 0)));
        }
        while t < n && si == n
            invariant
                ht == self.hash_table@,
                n == ht.len(),
                1 <= n <= 0x100000,
                start < n,
                t <= n,
                si <= n,
                si == n ==> probe_path_to(ht, start as int, t as nat, wrap_at(
                    n as int,
                    start as int,
                    t as int,
                )),
                si == n ==> forall|t2: int|
                    0 <= t2 < t ==> (#[trigger] ht[wrap_at(n as int, start as int, t2)]).block_index
                        != BLOCK_EMPTY && ht[wrap_at(n as int, start as int, t2)].block_index
                        != BLOCK_DELETED,
                si < n ==> {
                    &&& 0 <= gsteps < n
                    &&& probe_path_to(ht, start as int, gsteps as nat, si as int)
                    &&& (ht[si as int].block_index == BLOCK_EMPTY || ht[si as int].block_index
                        == BLOCK_DELETED)
                },
            decreases n - t,
        {
            let pos = if start + t >= n {
                start + t - n
            } else {
                start + t
            };
            proof {
                assert(pos as int == wrap_at(n as int, start as int, t as int));
            }
            let e = &self.hash_table[pos];
            if e.block_index == BLOCK_EMPTY || e.block_index == BLOCK_DELETED {
                si = pos;
                proof {
                    gsteps = t as int;
                }
            } else {
                proof {
                    lemma_path_extend(ht, start as int, t as nat, pos as int);
                    assert((if pos as int + 1 == ht.len() {
                        0int
                    } else {
                        pos as int + 1
                    }) == wrap_at(n as int, start as int, t as int + 1));
                }
            }
            t = t + 1;
        }
        if si == n {
            proof {
                Self::lemma_no_free_slot(ht, start as int);
            }
            return None;
        }
        proof {
            Self::lemma_find_slot_post(ht, a, b, start as int, gsteps as nat, si as int);
        }
        Some(si)
    }

    /// Find the slot a new name is entered at: refuse a name whose lookup
    /// already settles on a slot, then take the first empty or deleted slot
    /// on its probe path; a table without one is full.
    #[verifier::rlimit(100)]
    #[verifier::spinoff_prover]
    fn find_slot(&self, name: &[u8]) -> (r: Result<(usize, u32, u32), ErrorKind>)
        requires
            self.table.wf(),
            1 <= self.hash_table@.len() <= 0x100000,
        ensures
            match r {
                Ok(t) => {
                    &&& t.0 < self.hash_table@.len()
                    &&& (self.hash_table@[t.0 as int].block_index == BLOCK_EMPTY
                        || self.hash_table@[t.0 as int].block_index == BLOCK_DELETED)
                    &&& t.1 == hash_of(name@, 1)
                    &&& t.2 == hash_of(name@, 2)
                    &&& name_slot(self.hash_table@, name@) is None
                    &&& forall|e2: HashEntry|
                        probe_match(e2, t.1, t.2) ==> #[trigger] lookup_spec(
                            self.hash_table@.update(t.0 as int, e2),
                            t.1,
                            t.2,
                            0,
                            0,
                            (hash_of(name@, 0) as int) % (self.hash_table@.len() as int),
                        ) == Some(t.0 as int)
                },
                Err(e) => {
                    &&& (e == ErrorKind::AlreadyExists || e == ErrorKind::DiskFull)
                    &&& (e == ErrorKind::AlreadyExists ==> name_slot(self.hash_table@, name@)
                        is Some)
                    &&& (e == ErrorKind::DiskFull ==> (name_slot(self.hash_table@, name@) is None)
                        && !has_free_slot(self.hash_table@))
                },
            },
    {
        let n = self.hash_table.len();
        let a = hash_name(&self.table, name, HashType::NameA);
        let b = hash_name(&self.table, name, HashType::NameB);
        let start = (hash_name(&self.table, name, HashType::TableOffset) as usize) % n;
        match lookup(&self.hash_table, a, b, 0, 0, start) {
            Some(_) => {
                return Err(ErrorKind::AlreadyExists);
            },
            None => {},
        }
        match self.scan_free(a, b, start) {
            Some(si) => Ok((si, a, b)),
            None => Err(ErrorKind::DiskFull),
        }
    }

    /// Insert a file into the archive as a single-unit payload: deflated
    /// when that shrinks it, stored raw otherwise, never encrypted. The
    /// stored payload always decodes back to the input bytes.
    #[verifier::rlimit(100)]
    #[verifier::spinoff_prover]
    pub fn add_file(&mut self, name: &str, contents: &[u8]) -> (r: Result<(), ErrorKind>)
        requires
            old(self).wf(),
        ensures
            final(self).wf(),
            r is Err ==> *final(self) == *old(self),
            (r == Err::<(), ErrorKind>(ErrorKind::InvalidHandle)) <==> old(self).is_closed_spec(),
            (r == Err::<(), ErrorKind>(ErrorKind::AccessDenied)) <==> (!old(self).is_closed_spec()
                && old(self).read_only),
            r == Err::<(), ErrorKind>(ErrorKind::AlreadyExists) ==> name_slot(
                old(self).hash_table@,
                name.spec_bytes(),
            ) is Some,
            r == Err::<(), ErrorKind>(ErrorKind::DiskFull) ==> (contents@.len() > 0xFFFFFFF0 || old(
                self,
            ).data@.len() + contents@.len() + 1 > 0xFFFFFFFF || old(self).block_table@.len()
                >= 0x100000 || !has_free_slot(old(self).hash_table@)),
            r matches Err(e) ==> (e == ErrorKind::InvalidHandle || e == ErrorKind::AccessDenied
                || e == ErrorKind::AlreadyExists || e == ErrorKind::DiskFull),
            (!old(self).is_closed_spec() && !old(self).read_only && (name_slot(
                old(self).hash_table@,
                name.spec_bytes(),
            ) is None) && contents@.len() <= 0xFFFFFFF0 && old(self).data@.len() + contents@.len()
                + 1 <= 0xFFFFFFFF && old(self).block_table@.len() < 0x100000 && has_free_slot(
                old(self).hash_table@,
            )) ==> r is Ok,
            r is Ok ==> {
                &&& final(self).live == old(self).live
                &&& final(self).hash_table@.len() == old(self).hash_table@.len()
                &&& final(self).block_table@.len() == old(self).block_table@.len() + 1
                &&& final(self).data@.subrange(0, old(self).data@.len() as int) == old(self).data@
                &&& final(self).resolve_spec(name.spec_bytes(), 0, 0) == Resolution::Found(
                    old(self).block_table@.len() as usize,
                )
                &&& ({
                    let be = final(self).block_table@.last();
                    &&& be.fsize == contents@.len()
                    &&& be.flags & FLAG_EXISTS != 0
                    &&& be.flags & FLAG_SINGLE_UNIT != 0
                    &&& be.flags & crate::tables::FLAG_ENCRYPTED == 0
                    &&& be.flags & FLAG_DELETE_MARKER == 0
                    &&& be.file_pos == old(self).data@.len() - old(self).header.base
                    &&& be.csize == final(self).data@.len() - old(self).data@.len()
                    &&& decode_sector_spec(
                        final(self).data@.subrange(
                            old(self).data@.len() as int,
                            final(self).data@.len() as int,
                        ),
                        contents@.len() as nat,
                        be.flags & FLAG_COMPRESS != 0 || be.flags & FLAG_IMPLODE != 0,
                    ) == Ok::<Seq<u8>, ErrorKind>(contents@)
                })
                &&& final(self).header.base == old(self).header.base
            },
    {
        if self.is_closed() {
            return Err(ErrorKind::InvalidHandle);
        }
        if self.read_only {
            return Err(ErrorKind::AccessDenied);
        }
        if contents.len() > 0xFFFFFFF0 {
            return Err(ErrorKind::DiskFull);
        }
        if (self.data.len() as u64) + (contents.len() as u64) + 1 > 0xFFFFFFFF {
            return Err(ErrorKind::DiskFull);
        }
        if self.block_table.len() >= 0x100000 {
            return Err(ErrorKind::DiskFull);
        }
        let (si, a, b) = match self.find_slot(name.as_bytes()) {
            Ok(t) => t,
            Err(e) => {
                return Err(e);
            },
        };
        let (payload, packed) = encode_sector(contents);
        self.insert_file(si, a, b, contents, payload, packed, Ghost(name.spec_bytes()));
        Ok(())
    }

    /// The hash table in its on-disk form: word-encoded and encrypted under
    /// the table's publicly fixed key; decrypting recovers the entries.
    #[verifier::rlimit(100)]
    #[verifier::spinoff_prover]
    fn encrypted_hash_words(table: &CryptTable, t: &Vec<HashEntry>) -> (r: Vec<u32>)
        requires
            table.wf(),
        ensures
            r@.len() == 4 * t@.len(),
            hash_table_of(decrypt_seq(r@, hash_table_key(), 0xEEEEEEEE)) == t@,
    {
        let k = hash_table_key_exec(table);
        let mut w = hash_table_words(t);
        proof {
            lemma_decrypt_encrypt(w@, hash_table_key(), 0xEEEEEEEE);
        }
        let ghost w0 = w@;
        encrypt_block(table, &mut w, k);
        proof {
            lemma_decrypt_len(w@, hash_table_key(), 0xEEEEEEEE);
        }
        w
    }

    /// The block table in its on-disk form, as `encrypted_hash_words`.
    #[verifier::rlimit(100)]
    #[verifier::spinoff_prover]
    fn encrypted_block_words(table: &CryptTable, t: &Vec<BlockEntry>) -> (r: Vec<u32>)
        requires
            table.wf(),
        ensures
            r@.len() == 4 * t@.len(),
            block_table_of(decrypt_seq(r@, block_table_key(), 0xEEEEEEEE)) == t@,
    {
        let k = block_table_key_exec(table);
        let mut w = block_table_words(t);
        proof {
            lemma_decrypt_encrypt(w@, block_table_key(), 0xEEEEEEEE);
        }
        let ghost w0 = w@;
        encrypt_block(table, &mut w, k);
        proof {
            lemma_decrypt_len(w@, block_table_key(), 0xEEEEEEEE);
        }
        w
    }

    /// Enter a deletion marker for a name: a block entry flagged as a
    /// tombstone, so that the name resolves to an explicit deletion for
    /// patch-chain overlays.
    #[verifier::rlimit(100)]
    #[verifier::spinoff_prover]
    fn insert_tombstone(&mut self, si: usize, a: u32, b: u32, Ghost(gname): Ghost<Seq<u8>>)
        requires
            old(self).wf(),
            si < old(self).hash_table@.len(),
            old(self).block_table@.len() < 0x100000,
            a == hash_of(gname, 1),
            b == hash_of(gname, 2),
            forall|e2: HashEntry|
                probe_match(e2, a, b) ==> #[trigger] lookup_spec(
                    old(self).hash_table@.update(si as int, e2),
                    a,
                    b,
                    0,
                    0,
                    (hash_of(gname, 0) as int) % (old(self).hash_table@.len() as int),
                ) == Some(si as int),
        ensures
            final(self).wf(),
            final(self).live == old(self).live,
            final(self).read_only == old(self).read_only,
            final(self).data@ == old(self).data@,
            final(self).hash_table@.len() == old(self).hash_table@.len(),
            final(self).block_table@.len() == old(self).block_table@.len() + 1,
            final(self).resolve_spec(gname, 0, 0) == Resolution::Tombstone,
            final(self).header.base == old(self).header.base,
    {
        let fp = (self.data.len() - self.header.base as usize) as u32;
        let be = BlockEntry {
            file_pos: fp,
            csize: 0,
            fsize: 0,
            flags: FLAG_EXISTS | FLAG_DELETE_MARKER,
        };
        proof {
            assert(FLAG_EXISTS | FLAG_DELETE_MARKER == 0x82000000u32) by (bit_vector);
            assert(0x82000000u32 & FLAG_DELETE_MARKER != 0) by (bit_vector);
        }
        let bi = self.block_table.len() as u32;
        self.block_table.push(be);
        self.hash_table.set(
            si,
            HashEntry { name_a: a, name_b: b, locale: 0, platform: 0, block_index: bi },
        );
        self.header = ArchiveHeader {
            block_count: self.block_table.len() as u32,
            ..self.header
        };
        proof {
            let ht0 = old(self).hash_table@;
            let bt0 = old(self).block_table@;
            let e2 = HashEntry { name_a: a, name_b: b, locale: 0, platform: 0, block_index: bi };
            assert(self.block_table@ =~= bt0.push(be));
            assert(self.hash_table@ =~= ht0.update(si as int, e2));
            assert(block_ok(be, self.header.base as int, self.data@.len() as int));
            lemma_tables_grow(
                ht0,
                bt0,
                si as int,
                e2,
                be,
                self.header.base as int,
                old(self).data@.len() as int,
                self.data@.len() as int,
            );
            assert(probe_match(e2, a, b));
            lemma_insert_resolves(ht0, bt0, gname, si as int, e2, be);
        }
    }

    /// Mark a name — typically one carried by a lower patch layer — as
    /// deleted in this archive: lookups then stop at an explicit tombstone
    /// instead of falling through the chain.
    #[verifier::rlimit(100)]
    #[verifier::spinoff_prover]
    pub fn delete_file(&mut self, name: &str) -> (r: Result<(), ErrorKind>)
        requires
            old(self).wf(),
        ensures
            final(self).wf(),
            r is Err ==> *final(self) == *old(self),
            (r == Err::<(), ErrorKind>(ErrorKind::InvalidHandle)) <==> old(self).is_closed_spec(),
            (r == Err::<(), ErrorKind>(ErrorKind::AccessDenied)) <==> (!old(self).is_closed_spec()
                && old(self).read_only),
            r matches Err(e) ==> (e == ErrorKind::InvalidHandle || e == ErrorKind::AccessDenied
                || e == ErrorKind::AlreadyExists || e == ErrorKind::DiskFull),
            (!old(self).is_closed_spec() && !old(self).read_only && (name_slot(
                old(self).hash_table@,
                name.spec_bytes(),
            ) is None) && old(self).block_table@.len() < 0x100000 && has_free_slot(
                old(self).hash_table@,
            )) ==> r is Ok,
            r is Ok ==> {
                &&& final(self).live == old(self).live
                &&& final(self).data@ == old(self).data@
                &&& final(self).resolve_spec(name.spec_bytes(), 0, 0) == Resolution::Tombstone
            },
    {
        if self.is_closed() {
            return Err(ErrorKind::InvalidHandle);
        }
        if self.read_only {
            return Err(ErrorKind::AccessDenied);
        }
        if self.block_table.len() >= 0x100000 {
            return Err(ErrorKind::DiskFull);
        }
        let (si, a, b) = match self.find_slot(name.as_bytes()) {
            Ok(t) => t,
            Err(e) => {
                return Err(e);
            },
        };
        self.insert_tombstone(si, a, b, Ghost(name.spec_bytes()));
        Ok(())
    }

    /// Serialize the archive back to container bytes: the original bytes,
    /// the two tables appended encrypted under their fixed keys, and the
    /// header fields updated to the new layout. Reopening the result parses
    /// the same tables over the same payload bytes.
    #[verifier::rlimit(100)]
    pub fn save(&self) -> (r: Result<Vec<u8>, ErrorKind>)
        requires
            self.wf(),
        ensures
            r is Ok <==> self.data@.len() + 16 * self.header.hash_count + 16
                * self.block_table@.len() <= 0xFFFFFFFF,
            r matches Err(e) ==> e == ErrorKind::DiskFull,
            r matches Ok(out) ==> {
                &&& out@.len() == self.data@.len() + 16 * self.header.hash_count + 16
                    * self.block_table@.len()
                &&& out@.subrange(self.header.base + 32, self.data@.len() as int)
                    == self.data@.subrange(self.header.base + 32, self.data@.len() as int)
                &&& header_valid_at(out@, self.header.base as int)
                &&& ({
                    let h2 = header_at(out@, self.header.base as int);
                    &&& h2.hash_count == self.header.hash_count
                    &&& h2.block_count == self.block_table@.len()
                    &&& h2.version == self.header.version
                    &&& h2.sector_shift == self.header.sector_shift
                    &&& spec_hash_table(out@, h2) == self.hash_table@
                    &&& spec_block_table(out@, h2) == self.block_table@
                })
                &&& (self.header.base == 0 ==> find_header_spec(out@, true) == Some(0int)
                    && find_header_spec(out@, false) == Some(0int))
            },
    {
        let hc = self.hash_table.len();
        let bc = self.block_table.len();
        if (self.data.len() as u64) + 16 * (hc as u64) + 16 * (bc as u64) > 0xFFFFFFFF {
            return Err(ErrorKind::DiskFull);
        }
        let base = self.header.base as usize;
        let mut out: Vec<u8> = crate::bytes::copy_bytes(self.data.as_slice());
        let hp = (out.len() - base) as u32;
        let hw = Self::encrypted_hash_words(&self.table, &self.hash_table);
        push_words_le(&mut out, &hw);
        let ghost mid = out@;
        let bp = (out.len() - base) as u32;
        let bw = Self::encrypted_block_words(&self.table, &self.block_table);
        push_words_le(&mut out, &bw);
        let total = (out.len() - base) as u32;
        let ghost before = out@;
        proof {
            let olen = self.data@.len() as int;
            let hci = hc as int;
            assert(before.subrange(0, mid.len() as int) == mid);
            assert(mid.subrange(0, olen) == self.data@);
            assert forall|j: int| 0 <= j < 4 * hci implies u32_le_at(before, olen + 4 * j)
                == hw@[j] by {
                assert(u32_le_at(mid, olen + 4 * j) == hw@[j]);
                assert(before[olen + 4 * j] == mid[olen + 4 * j]);
                assert(before[olen + 4 * j + 1] == mid[olen + 4 * j + 1]);
                assert(before[olen + 4 * j + 2] == mid[olen + 4 * j + 2]);
                assert(before[olen + 4 * j + 3] == mid[olen + 4 * j + 3]);
            }
            assert forall|j: int| 0 <= j < olen implies before[j] == self.data@[j] by {
                assert(before[j] == mid[j]);
                assert(mid[j] == self.data@[j]);
            }
        }
        crate::bytes::patch_header_words(&mut out, base, total, hp, bp, hc as u32, bc as u32);
        proof {
            let b = base as int;
            let olen = self.data@.len() as int;
            let hci = hc as int;
            let bci = bc as int;
            // Bytes outside the five patched words kept their values; the
            // appended table regions and the payload lie outside them.
            assert(u32_le_at(out@, b) == u32_le_at(self.data@, b));
            assert(u16_le_at(out@, b + 12) == u16_le_at(self.data@, b + 12));
            assert(u16_le_at(out@, b + 14) == u16_le_at(self.data@, b + 14));
            assert(out@.subrange(b + 32, olen) =~= self.data@.subrange(b + 32, olen));
            assert forall|j: int| 0 <= j < 4 * hci implies u32_le_at(out@, olen + 4 * j)
                == hw@[j] by {
                assert(out@[olen + 4 * j] == before[olen + 4 * j]);
                assert(out@[olen + 4 * j + 1] == before[olen + 4 * j + 1]);
                assert(out@[olen + 4 * j + 2] == before[olen + 4 * j + 2]);
                assert(out@[olen + 4 * j + 3] == before[olen + 4 * j + 3]);
                assert(u32_le_at(before, olen + 4 * j) == hw@[j]);
            }
            assert(words_le_at(out@, olen, (4 * hc) as nat) =~= hw@);
            assert forall|j: int| 0 <= j < 4 * bci implies u32_le_at(out@, olen + 16 * hci + 4 * j)
                == bw@[j] by {
                assert(u32_le_at(before, olen + 16 * hci + 4 * j) == bw@[j]);
                assert(out@[olen + 16 * hci + 4 * j] == before[olen + 16 * hci + 4 * j]);
                assert(out@[olen + 16 * hci + 4 * j + 1] == before[olen + 16 * hci + 4 * j + 1]);
                assert(out@[olen + 16 * hci + 4 * j + 2] == before[olen + 16 * hci + 4 * j + 2]);
                assert(out@[olen + 16 * hci + 4 * j + 3] == before[olen + 16 * hci + 4 * j + 3]);
            }
            assert(words_le_at(out@, olen + 16 * hci, (4 * bc) as nat) =~= bw@);
            let h2 = header_at(out@, b);
            assert(h2.hash_pos == hp && h2.block_pos == bp && h2.hash_count == hc as u32
                && h2.block_count == bc as u32 && h2.archive_size == total);
            assert(b + hp == olen && b + bp == olen + 16 * hci);
            assert(spec_hash_words(out@, h2) == decrypt_seq(hw@, hash_table_key(), 0xEEEEEEEE));
            assert(spec_block_words(out@, h2) == decrypt_seq(bw@, block_table_key(), 0xEEEEEEEE));
            assert(spec_hash_table(out@, h2) == self.hash_table@);
            assert(spec_block_table(out@, h2) == self.block_table@);
            assert(header_valid_at(out@, b));
            if b == 0 {
                assert(find_header_spec(out@, true) == Some(0int));
                assert(crate::header::find_header_from(out@, 0) == Some(0int));
            }
        }
        Ok(out)
    }

    /// Resolve raw name bytes to a block-table index, a tombstone, or an
    /// absence, probing the requested locale/platform pair first and the
    /// neutral pair as fallback.
    pub fn resolve_entry(&self, name: &[u8], locale: u16, platform: u16) -> (r: Resolution)
        requires
            self.table.wf(),
        ensures
            r == self.resolve_spec(name@, locale, platform),
            r matches Resolution::Found(bi) ==> bi < self.block_table@.len(),
    {
        let n = self.hash_table.len();
        if n == 0 {
            return Resolution::Absent;
        }
        let a = hash_name(&self.table, name, HashType::NameA);
        let b = hash_name(&self.table, name, HashType::NameB);
        let start = (hash_name(&self.table, name, HashType::TableOffset) as usize) % n;
        match lookup(&self.hash_table, a, b, locale, platform, start) {
            None => Resolution::Absent,
            Some(i) => {
                let bi = self.hash_table[i].block_index;
                if bi == BLOCK_EMPTY || bi == BLOCK_DELETED || bi as usize
                    >= self.block_table.len() {
                    Resolution::Absent
                } else if self.block_table[bi as usize].flags & FLAG_DELETE_MARKER != 0 {
                    Resolution::Tombstone
                } else if self.block_table[bi as usize].flags & FLAG_EXISTS == 0 {
                    Resolution::Absent
                } else {
                    Resolution::Found(bi as usize)
                }
            },
        }
    }

    /// Resolve a logical file name to its block-table entry. A tombstoned or
    /// missing name is the expected failure, `NotFound`.
    pub fn resolve(&self, name: &str, locale: u16, platform: u16) -> (r: Result<
        BlockEntry,
        ErrorKind,
    >)
        requires
            self.table.wf(),
        ensures
            match self.resolve_spec(name.spec_bytes(), locale, platform) {
                Resolution::Found(bi) => r == Ok::<BlockEntry, ErrorKind>(
                    self.block_table@[bi as int],
                ),
                _ => r == Err::<BlockEntry, ErrorKind>(ErrorKind::NotFound),
            },
    {
        match self.resolve_entry(name.as_bytes(), locale, platform) {
            Resolution::Found(bi) => Ok(self.block_table[bi]),
            _ => Err(ErrorKind::NotFound),
        }
    }

    /// Whether the archive holds a live file of this name: exactly when
    /// `resolve` succeeds, without allocating a handle.
    pub fn contains(&self, name: &str) -> (r: bool)
        requires
            self.table.wf(),
        ensures
            r == (self.resolve_spec(name.spec_bytes(), (self.locale % 0x10000) as u16, 0)
                matches Resolution::Found(_)),
    {
        match self.resolve_entry(name.as_bytes(), (self.locale % 0x10000) as u16, 0) {
            Resolution::Found(_) => true,
            _ => false,
        }
    }
}

} // verus!
