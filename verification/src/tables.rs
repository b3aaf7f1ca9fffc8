use vstd::prelude::*;

verus! {

/// Hash-table sentinel: the slot was never used; a probe stops here.
pub const BLOCK_EMPTY: u32 = 0xFFFFFFFF;

/// Hash-table sentinel: the slot's file was deleted; a probe walks past.
pub const BLOCK_DELETED: u32 = 0xFFFFFFFE;

/// Block flag: the entry describes a stored file.
pub const FLAG_EXISTS: u32 = 0x80000000;

/// Block flag: the sectors are compressed by a method mask.
pub const FLAG_COMPRESS: u32 = 0x200;

/// Block flag: the sectors are compressed by the legacy implode codec.
pub const FLAG_IMPLODE: u32 = 0x100;

/// Block flag: the sectors are encrypted with the file's derived key.
pub const FLAG_ENCRYPTED: u32 = 0x10000;

/// Block flag: the derived key is adjusted by block offset and size.
pub const FLAG_FIX_KEY: u32 = 0x20000;

/// Block flag: the file is an incremental patch.
pub const FLAG_PATCH_FILE: u32 = 0x100000;

/// Block flag: the whole payload is stored as one sector.
pub const FLAG_SINGLE_UNIT: u32 = 0x1000000;

/// Block flag: the entry tombstones the name for patch-chain lookups.
pub const FLAG_DELETE_MARKER: u32 = 0x2000000;

/// Block flag: each sector carries a stored checksum.
pub const FLAG_SECTOR_CRC: u32 = 0x4000000;

/// One hash-table slot: the two stored name hashes, the locale and platform
/// tags, and the block-table index (or a sentinel).
#[derive(Clone, Copy, Debug, PartialEq, Eq, Structural)]
pub struct HashEntry {
    pub name_a: u32,
    pub name_b: u32,
    pub locale: u16,
    pub platform: u16,
    pub block_index: u32,
}

/// One block-table entry: where the stored bytes sit (relative to the
/// archive base), their stored and decompressed sizes, and the flag mask.
#[derive(Clone, Copy, Debug, PartialEq, Eq, Structural)]
pub struct BlockEntry {
    pub file_pos: u32,
    pub csize: u32,
    pub fsize: u32,
    pub flags: u32,
}

impl BlockEntry {
    /// Whether `flag` is set in the entry's mask.
    pub open spec fn has_flag_spec(self, flag: u32) -> bool {
        self.flags & flag != 0
    }

    /// Executable form of `has_flag_spec`.
    pub fn has_flag(&self, flag: u32) -> (r: bool)
        ensures
            r == self.has_flag_spec(flag),
    {
        self.flags & flag != 0
    }
}

/// The hash-table slot encoded in words `4i..4i+4` of a decrypted table.
pub open spec fn hash_entry_at(w: Seq<u32>, i: int) -> HashEntry {
    HashEntry {
        name_a: w[4 * i],
        name_b: w[4 * i + 1],
        locale: (w[4 * i + 2] & 0xFFFF) as u16,
        platform: ((w[4 * i + 2] >> 16) & 0xFFFF) as u16,
        block_index: w[4 * i + 3],
    }
}

/// The whole hash table encoded in a decrypted word sequence.
pub open spec fn hash_table_of(w: Seq<u32>) -> Seq<HashEntry> {
    Seq::new((w.len() / 4) as nat, |i: int| hash_entry_at(w, i))
}

/// The block-table entry encoded in words `4i..4i+4`.
pub open spec fn block_entry_at(w: Seq<u32>, i: int) -> BlockEntry {
    BlockEntry { file_pos: w[4 * i], csize: w[4 * i + 1], fsize: w[4 * i + 2], flags: w[4 * i + 3] }
}

/// The whole block table encoded in a word sequence.
pub open spec fn block_table_of(w: Seq<u32>) -> Seq<BlockEntry> {
    Seq::new((w.len() / 4) as nat, |i: int| block_entry_at(w, i))
}

/// Decode a decrypted word sequence into hash-table slots.
pub fn parse_hash_table(w: &Vec<u32>) -> (r: Vec<HashEntry>)
    ensures
        r@ == hash_table_of(w@),
{
    let wl = w.len();
    let n = wl / 4;
    assert(4 * (wl as int / 4) <= wl as int);
    let mut r: Vec<HashEntry> = Vec::new();
    let mut i: usize = 0;
    while i < n
        invariant
            i <= n,
            wl == w@.len(),
            n == w@.len() / 4,
            4 * n <= wl,
            r@.len() == i,
            forall|j: int| 0 <= j < i ==> r@[j] == hash_entry_at(w@, j),
        decreases n - i,
    {
        assert(4 * i + 4 <= 4 * (w@.len() as int / 4));
        assert(4 * (w@.len() as int / 4) <= w@.len());
        let lp = w[4 * i + 2];
        assert(lp & 0xFFFF < 0x10000 && (lp >> 16) & 0xFFFF < 0x10000) by (bit_vector);
        r.push(
            HashEntry {
                name_a: w[4 * i],
                name_b: w[4 * i + 1],
                locale: (lp & 0xFFFF) as u16,
                platform: ((lp >> 16) & 0xFFFF) as u16,
                block_index: w[4 * i + 3],
            },
        );
        i = i + 1;
    }
    assert(r@ =~= hash_table_of(w@));
    r
}

/// Decode a word sequence into block-table entries.
pub fn parse_block_table(w: &Vec<u32>) -> (r: Vec<BlockEntry>)
    ensures
        r@ == block_table_of(w@),
{
    let wl = w.len();
    let n = wl / 4;
    assert(4 * (wl as int / 4) <= wl as int);
    let mut r: Vec<BlockEntry> = Vec::new();
    let mut i: usize = 0;
    while i < n
        invariant
            i <= n,
            wl == w@.len(),
            n == w@.len() / 4,
            4 * n <= wl,
            r@.len() == i,
            forall|j: int| 0 <= j < i ==> r@[j] == block_entry_at(w@, j),
        decreases n - i,
    {
        assert(4 * i + 4 <= 4 * (w@.len() as int / 4));
        assert(4 * (w@.len() as int / 4) <= w@.len());
        r.push(
            BlockEntry {
                file_pos: w[4 * i],
                csize: w[4 * i + 1],
                fsize: w[4 * i + 2],
                flags: w[4 * i + 3],
            },
        );
        i = i + 1;
    }
    assert(r@ =~= block_table_of(w@));
    r
}

/// Encode hash-table slots back into the word form that decoding reads.
pub fn hash_table_words(t: &Vec<HashEntry>) -> (r: Vec<u32>)
    ensures
        r@.len() == 4 * t@.len(),
        hash_table_of(r@) == t@,
{
    let mut r: Vec<u32> = Vec::new();
    let mut i: usize = 0;
    while i < t.len()
        invariant
            i <= t@.len(),
            r@.len() == 4 * i,
            forall|j: int| 0 <= j < i ==> hash_entry_at(r@, j) == t@[j],
        decreases t@.len() - i,
    {
        let ghost pre = r@;
        let e = t[i];
        r.push(e.name_a);
        r.push(e.name_b);
        r.push((e.locale as u32) | ((e.platform as u32) << 16));
        r.push(e.block_index);
        proof {
            let lp = (e.locale as u32) | ((e.platform as u32) << 16);
            let l = e.locale;
            let p = e.platform;
            assert((((l as u32) | ((p as u32) << 16)) & 0xFFFF) as u16 == l && ((((l as u32) | ((
            p as u32) << 16)) >> 16) & 0xFFFF) as u16 == p) by (bit_vector);
            assert(forall|j: int|
                0 <= j < i ==> #[trigger] hash_entry_at(r@, j) == hash_entry_at(pre, j));
            assert(hash_entry_at(r@, i as int) == t@[i as int]);
        }
        i = i + 1;
    }
    assert(hash_table_of(r@) =~= t@);
    r
}

/// Encode block-table entries back into the word form that decoding reads.
pub fn block_table_words(t: &Vec<BlockEntry>) -> (r: Vec<u32>)
    ensures
        r@.len() == 4 * t@.len(),
        block_table_of(r@) == t@,
{
    let mut r: Vec<u32> = Vec::new();
    let mut i: usize = 0;
    while i < t.len()
        invariant
            i <= t@.len(),
            r@.len() == 4 * i,
            forall|j: int| 0 <= j < i ==> block_entry_at(r@, j) == t@[j],
        decreases t@.len() - i,
    {
        let ghost pre = r@;
        let e = t[i];
        r.push(e.file_pos);
        r.push(e.csize);
        r.push(e.fsize);
        r.push(e.flags);
        proof {
            assert(forall|j: int|
                0 <= j < i ==> #[trigger] block_entry_at(r@, j) == block_entry_at(pre, j));
            assert(block_entry_at(r@, i as int) == t@[i as int]);
        }
        i = i + 1;
    }
    assert(block_table_of(r@) =~= t@);
    r
}

/// Open-addressing probe: from slot `pos`, walk at most `tries` slots with
/// wrap-around, stopping at an always-empty slot, skipping deleted slots and
/// slots whose stored hashes or tags differ, and yielding the first live
/// slot that matches both name hashes and the locale/platform pair.
pub open spec fn probe_from(
    ht: Seq<HashEntry>,
    a: u32,
    b: u32,
    locale: u16,
    platform: u16,
    pos: int,
    tries: nat,
) -> Option<int>
    decreases tries,
{
    if tries == 0 || ht.len() == 0 || pos < 0 || pos >= ht.len() {
        None
    } else {
        let e = ht[pos];
        if e.block_index == BLOCK_EMPTY {
            None
        } else if e.block_index != BLOCK_DELETED && e.name_a == a && e.name_b == b && e.locale
            == locale && e.platform == platform {
            Some(pos)
        } else {
            probe_from(
                ht,
                a,
                b,
                locale,
                platform,
                if pos + 1 == ht.len() {
                    0
                } else {
                    pos + 1
                },
                (tries - 1) as nat,
            )
        }
    }
}

/// Where a name with probe-start slot `start` resolves in the hash table:
/// a full probe cycle with the requested locale and platform first, then —
/// if the request was not already neutral — a fallback cycle with the
/// neutral locale and platform.
pub open spec fn lookup_spec(
    ht: Seq<HashEntry>,
    a: u32,
    b: u32,
    locale: u16,
    platform: u16,
    start: int,
) -> Option<int> {
    match probe_from(ht, a, b, locale, platform, start, ht.len()) {
        Some(i) => Some(i),
        None => if locale != 0 || platform != 0 {
            probe_from(ht, a, b, 0, 0, start, ht.len())
        } else {
            None
        },
    }
}

/// One probe cycle through the hash table.
fn probe(
    ht: &Vec<HashEntry>,
    a: u32,
    b: u32,
    locale: u16,
    platform: u16,
    start: usize,
) -> (r: Option<usize>)
    requires
        start < ht@.len() || ht@.len() == 0,
    ensures
        match probe_from(ht@, a, b, locale, platform, start as int, ht@.len() as nat) {
            Some(i) => r == Some(i as usize),
            None => r is None,
        },
{
    let n = ht.len();
    if n == 0 {
        return None;
    }
    let mut pos = start;
    let mut tries = n;
    while tries > 0
        invariant
            n == ht@.len(),
            n > 0,
            pos < n,
            tries <= n,
            probe_from(ht@, a, b, locale, platform, start as int, n as nat) == probe_from(
                ht@,
                a,
                b,
                locale,
                platform,
                pos as int,
                tries as nat,
            ),
        decreases tries,
    {
        let e = &ht[pos];
        if e.block_index == BLOCK_EMPTY {
            return None;
        }
        if e.block_index != BLOCK_DELETED && e.name_a == a && e.name_b == b && e.locale == locale
            && e.platform == platform {
            return Some(pos);
        }
        pos = if pos + 1 == n {
            0
        } else {
            pos + 1
        };
        tries = tries - 1;
    }
    None
}

/// Look a hashed name up: the requested locale/platform pair first, the
/// neutral pair as fallback.
pub fn lookup(
    ht: &Vec<HashEntry>,
    a: u32,
    b: u32,
    locale: u16,
    platform: u16,
    start: usize,
) -> (r: Option<usize>)
    requires
        start < ht@.len() || ht@.len() == 0,
    ensures
        match lookup_spec(ht@, a, b, locale, platform, start as int) {
            Some(i) => r == Some(i as usize) && 0 <= i < ht@.len(),
            None => r is None,
        },
{
    proof {
        lemma_probe_in_range(ht@, a, b, locale, platform, start as int, ht@.len() as nat);
        lemma_probe_in_range(ht@, a, b, 0, 0, start as int, ht@.len() as nat);
    }
    match probe(ht, a, b, locale, platform, start) {
        Some(i) => Some(i),
        None => {
            if locale != 0 || platform != 0 {
                probe(ht, a, b, 0, 0, start)
            } else {
                None
            }
        },
    }
}

/// A successful probe yields a slot index inside the table.
pub proof fn lemma_probe_in_range(
    ht: Seq<HashEntry>,
    a: u32,
    b: u32,
    locale: u16,
    platform: u16,
    pos: int,
    tries: nat,
)
    ensures
        match probe_from(ht, a, b, locale, platform, pos, tries) {
            Some(i) => 0 <= i < ht.len(),
            None => true,
        },
    decreases tries,
{
    if tries > 0 && ht.len() > 0 && 0 <= pos < ht.len() {
        let e = ht[pos];
        if e.block_index != BLOCK_EMPTY && !(e.block_index != BLOCK_DELETED && e.name_a == a
            && e.name_b == b && e.locale == locale && e.platform == platform) {
            lemma_probe_in_range(
                ht,
                a,
                b,
                locale,
                platform,
                if pos + 1 == ht.len() {
                    0
                } else {
                    pos + 1
                },
                (tries - 1) as nat,
            );
        }
    }
}

/// A slot that a lookup yields matched the name hashes and is live.
pub proof fn lemma_probe_matches(
    ht: Seq<HashEntry>,
    a: u32,
    b: u32,
    locale: u16,
    platform: u16,
    pos: int,
    tries: nat,
)
    ensures
        match probe_from(ht, a, b, locale, platform, pos, tries) {
            Some(i) => {
                let e = ht[i];
                e.name_a == a && e.name_b == b && e.locale == locale && e.platform == platform
                    && e.block_index != BLOCK_EMPTY && e.block_index != BLOCK_DELETED
            },
            None => true,
        },
    decreases tries,
{
    if tries > 0 && ht.len() > 0 && 0 <= pos < ht.len() {
        let e = ht[pos];
        if e.block_index != BLOCK_EMPTY && !(e.block_index != BLOCK_DELETED && e.name_a == a
            && e.name_b == b && e.locale == locale && e.platform == platform) {
            lemma_probe_matches(
                ht,
                a,
                b,
                locale,
                platform,
                if pos + 1 == ht.len() {
                    0
                } else {
                    pos + 1
                },
                (tries - 1) as nat,
            );
        }
    }
}

/// Whether an entry would satisfy a probe for hashes `a`/`b` at the neutral
/// locale and platform: both stored hashes match and the slot is live.
pub open spec fn probe_match(e: HashEntry, a: u32, b: u32) -> bool {
    &&& e.name_a == a
    &&& e.name_b == b
    &&& e.locale == 0
    &&& e.platform == 0
    &&& e.block_index != BLOCK_EMPTY
    &&& e.block_index != BLOCK_DELETED
}

/// The probe path from `pos` reaches `si` after `steps` hops, every slot on
/// the way occupied (neither empty nor deleted).
pub open spec fn probe_path_to(ht: Seq<HashEntry>, pos: int, steps: nat, si: int) -> bool
    decreases steps,
{
    if pos < 0 || pos >= ht.len() {
        false
    } else if steps == 0 {
        pos == si
    } else {
        &&& ht[pos].block_index != BLOCK_EMPTY
        &&& ht[pos].block_index != BLOCK_DELETED
        &&& probe_path_to(
            ht,
            if pos + 1 == ht.len() {
                0int
            } else {
                pos + 1
            },
            (steps - 1) as nat,
            si,
        )
    }
}

/// A probe path extends by one hop over a further occupied slot.
pub proof fn lemma_path_extend(ht: Seq<HashEntry>, pos: int, steps: nat, si: int)
    requires
        probe_path_to(ht, pos, steps, si),
        0 <= si < ht.len(),
        ht[si].block_index != BLOCK_EMPTY,
        ht[si].block_index != BLOCK_DELETED,
    ensures
        probe_path_to(
            ht,
            pos,
            steps + 1,
            if si + 1 == ht.len() {
                0int
            } else {
                si + 1
            },
        ),
    decreases steps,
{
    let nx = if si + 1 == ht.len() {
        0int
    } else {
        si + 1
    };
    if steps == 0 {
        assert(pos == si);
        assert(0 <= nx < ht.len());
        assert(probe_path_to(ht, nx, 0, nx));
        assert(probe_path_to(ht, si, 1, nx));
    } else {
        lemma_path_extend(
            ht,
            if pos + 1 == ht.len() {
                0int
            } else {
                pos + 1
            },
            (steps - 1) as nat,
            si,
        );
    }
}

/// Writing a matching live entry into the first free slot on a name's probe
/// path makes the probe find exactly that slot: the occupied slots before it
/// matched nothing (the unchanged probe came back empty), and the probe
/// stops at the first live match.
pub proof fn lemma_insert_probe(
    ht: Seq<HashEntry>,
    a: u32,
    b: u32,
    pos: int,
    tries: nat,
    steps: nat,
    si: int,
    e2: HashEntry,
)
    requires
        ht.len() > 0,
        0 <= pos < ht.len(),
        0 <= si < ht.len(),
        steps < tries,
        probe_path_to(ht, pos, steps, si),
        ht[si].block_index == BLOCK_EMPTY || ht[si].block_index == BLOCK_DELETED,
        probe_from(ht, a, b, 0, 0, pos, tries) is None,
        probe_match(e2, a, b),
    ensures
        probe_from(ht.update(si, e2), a, b, 0, 0, pos, tries) == Some(si),
    decreases steps,
{
    let ht2 = ht.update(si, e2);
    if steps == 0 {
        assert(pos == si);
        assert(ht2[pos] == e2);
    } else {
        assert(ht[pos].block_index != BLOCK_EMPTY && ht[pos].block_index != BLOCK_DELETED);
        assert(pos != si);
        assert(ht2[pos] == ht[pos]);
        // The unchanged probe walked through this occupied slot without a
        // match, so the updated probe does too.
        assert(!(ht[pos].block_index != BLOCK_DELETED && ht[pos].name_a == a && ht[pos].name_b
            == b && ht[pos].locale == 0 && ht[pos].platform == 0));
        let next = if pos + 1 == ht.len() {
            0int
        } else {
            pos + 1
        };
        lemma_insert_probe(ht, a, b, next, (tries - 1) as nat, (steps - 1) as nat, si, e2);
    }
}

} // verus!
