use vstd::prelude::*;
use vstd::string::StringSliceAdditionalSpecFns;
use crate::errors::ErrorKind;
use crate::crypt::{CryptTable, decrypt_seq, decrypt_block, file_key_of, derive_file_key};
use crate::bytes::{u32_le_bytes, words_le_at, read_words_le, push_u32_le};
use crate::codec::{decode_sector_spec, decode_sector};
use crate::archive::{MPQ, Resolution, block_ok};
use crate::tables::{
    BlockEntry, FLAG_COMPRESS, FLAG_IMPLODE, FLAG_ENCRYPTED, FLAG_FIX_KEY, FLAG_SINGLE_UNIT,
};

verus! {

/// The bytes of a word sequence, each word spelled low byte first.
pub open spec fn word_bytes(w: Seq<u32>) -> Seq<u8> {
    Seq::new((4 * w.len()) as nat, |j: int| u32_le_bytes(w[j / 4])[j % 4])
}

/// Decrypt a byte buffer: whole words are deciphered, a trailing partial
/// word is kept as stored.
pub open spec fn decrypt_bytes_spec(s: Seq<u8>, key: u32) -> Seq<u8> {
    word_bytes(decrypt_seq(words_le_at(s, 0, (s.len() / 4) as nat), key, 0xEEEEEEEE)) + s.skip(
        4 * (s.len() as int / 4),
    )
}

/// Executable form of `decrypt_bytes_spec`.
pub fn decrypt_bytes(table: &CryptTable, s: &[u8], key: u32) -> (r: Vec<u8>)
    requires
        table.wf(),
    ensures
        r@ == decrypt_bytes_spec(s@, key),
{
    let sl = s.len();
    let nw = sl / 4;
    assert(4 * (sl as int / 4) <= sl as int);
    let mut w = read_words_le(s, 0, nw);
    proof {
        crate::crypt::lemma_decrypt_len(words_le_at(s@, 0, nw as nat), key, 0xEEEEEEEE);
    }
    decrypt_block(table, &mut w, key);
    let mut out: Vec<u8> = Vec::new();
    let mut i: usize = 0;
    while i < w.len()
        invariant
            i <= w@.len(),
            w@.len() == nw,
            out@.len() == 4 * i,
            forall|j: int| 0 <= j < 4 * i ==> out@[j] == u32_le_bytes(w@[j / 4])[j % 4],
        decreases w@.len() - i,
    {
        let ghost pre = out@;
        push_u32_le(&mut out, w[i]);
        proof {
            assert forall|j: int| 0 <= j < 4 * (i + 1) implies out@[j] == u32_le_bytes(
                w@[j / 4],
            )[j % 4] by {
                if j < 4 * i {
                    assert(out@[j] == pre[j]);
                } else {
                    assert(j / 4 == i && j % 4 == j - 4 * i);
                    assert(out@[j] == u32_le_bytes(w@[i as int])[j - 4 * (i as int)]);
                }
            }
        }
        i = i + 1;
    }
    assert(out@ =~= word_bytes(w@));
    let mut j: usize = 4 * nw;
    while j < sl
        invariant
            4 * nw <= j <= sl,
            sl == s@.len(),
            out@ == word_bytes(decrypt_seq(words_le_at(s@, 0, nw as nat), key, 0xEEEEEEEE))
                + s@.subrange(4 * nw as int, j as int),
        decreases sl - j,
    {
        out.push(s[j]);
        proof {
            assert(out@ =~= word_bytes(
                decrypt_seq(words_le_at(s@, 0, nw as nat), key, 0xEEEEEEEE),
            ) + s@.subrange(4 * nw as int, j + 1));
        }
        j = j + 1;
    }
    proof {
        assert(s@.skip(4 * (s@.len() as int / 4)) =~= s@.subrange(4 * nw as int, sl as int));
    }
    out
}

/// Whether a sector-offset sequence is consistent with a stored size: it is
/// non-empty, non-decreasing, and stays inside the stored bytes.
pub open spec fn offsets_ok(ot: Seq<u32>, csize: nat) -> bool {
    &&& ot.len() >= 1
    &&& forall|i: int| 0 <= i < ot.len() - 1 ==> #[trigger] ot[i] <= ot[i + 1]
    &&& forall|i: int| 0 <= i < ot.len() ==> #[trigger] ot[i] <= csize
}

/// The decoded bytes of sectors `i..` of a stored payload: each sector's
/// body is cut by the offset pair, decrypted with the per-sector key when
/// the file is encrypted, and decoded to its expected decompressed size (the
/// sector size, or the remainder for the final sector).
pub open spec fn sectors_spec(
    raw: Seq<u8>,
    ot: Seq<u32>,
    key: u32,
    enc: bool,
    compressed: bool,
    ss: nat,
    fsize: nat,
    i: nat,
) -> Result<Seq<u8>, ErrorKind>
    decreases ot.len() - i,
{
    if i + 1 >= ot.len() {
        Ok(Seq::empty())
    } else {
        let body = raw.subrange(ot[i as int] as int, ot[i as int + 1] as int);
        let dec = if enc {
            decrypt_bytes_spec(body, key.wrapping_add(i as u32))
        } else {
            body
        };
        let expected = if i + 2 == ot.len() {
            (fsize - i * ss) as nat
        } else {
            ss
        };
        match decode_sector_spec(dec, expected, compressed) {
            Ok(sec) => match sectors_spec(raw, ot, key, enc, compressed, ss, fsize, i + 1) {
                Ok(rest) => Ok(sec + rest),
                Err(e) => Err(e),
            },
            Err(e) => Err(e),
        }
    }
}

/// An open file handle: a copy of the file's stored bytes and metadata, the
/// derived key, the decoded sector boundaries, a cursor, the decoded-bytes
/// cache, and a count of sector decode operations.
pub struct MPQFile {
    pub name: String,
    pub block_index: usize,
    pub entry: BlockEntry,
    pub key: u32,
    pub sector_size: u32,
    pub offsets: Vec<u32>,
    pub raw: Vec<u8>,
    pub cursor: usize,
    pub cache: Option<Vec<u8>>,
    pub codec_calls: u32,
}

impl MPQFile {
    /// Whether the file's sectors are encrypted.
    pub open spec fn encrypted(&self) -> bool {
        self.entry.flags & FLAG_ENCRYPTED != 0
    }

    /// Whether the file's sectors are compressed.
    pub open spec fn compressed(&self) -> bool {
        self.entry.flags & FLAG_COMPRESS != 0 || self.entry.flags & FLAG_IMPLODE != 0
    }

    /// Whether the whole payload is one sector.
    pub open spec fn single_unit(&self) -> bool {
        self.entry.flags & FLAG_SINGLE_UNIT != 0
    }

    /// The decoded contents of the file, or the first sector's failure.
    pub open spec fn contents_spec(&self) -> Result<Seq<u8>, ErrorKind> {
        sectors_spec(
            self.raw@,
            self.offsets@,
            self.key,
            self.encrypted(),
            self.compressed(),
            self.sector_size as nat,
            self.entry.fsize as nat,
            0,
        )
    }

    /// Consistency of a handle with the archive it was derived from: the
    /// entry is the archive's, the stored bytes are the entry's range of the
    /// container, the boundaries are consistent, the decode counter is
    /// bounded by the sector count, and a filled cache holds exactly the
    /// decoded contents.
    pub open spec fn wf_for(&self, a: &MPQ) -> bool {
        &&& self.block_index < a.block_table@.len()
        &&& self.entry == a.block_table@[self.block_index as int]
        &&& self.raw@ == a.data@.subrange(
            a.header.base + self.entry.file_pos,
            a.header.base + self.entry.file_pos + self.entry.csize,
        )
        &&& self.raw@.len() == self.entry.csize
        &&& self.sector_size == 512u32 << a.header.sector_shift
        &&& self.sector_size >= 1
        &&& offsets_ok(self.offsets@, self.entry.csize as nat)
        &&& (self.offsets@.len() as int - 2) * (self.sector_size as int) <= self.entry.fsize
        &&& self.offsets@.len() <= 0x1000000
        &&& self.codec_calls as int <= self.offsets@.len() as int - 1
        &&& match self.cache {
            Some(c) => self.contents_spec() == Ok::<Seq<u8>, ErrorKind>(c@),
            None => true,
        }
    }

    /// The file's decompressed size, as the block table stores it. Like
    /// every handle operation, it fails with `InvalidHandle` once the
    /// archive the handle was derived from has been closed.
    pub fn size(&self, a: &MPQ) -> (r: Result<u32, ErrorKind>)
        ensures
            a.is_closed_spec() ==> r == Err::<u32, ErrorKind>(ErrorKind::InvalidHandle),
            !a.is_closed_spec() ==> r == Ok::<u32, ErrorKind>(self.entry.fsize),
    {
        if a.is_closed() {
            Err(ErrorKind::InvalidHandle)
        } else {
            Ok(self.entry.fsize)
        }
    }

    /// The logical name the handle was opened under; `InvalidHandle` once
    /// the archive has been closed.
    pub fn name(&self, a: &MPQ) -> (r: Result<String, ErrorKind>)
        ensures
            a.is_closed_spec() ==> r == Err::<String, ErrorKind>(ErrorKind::InvalidHandle),
            !a.is_closed_spec() ==> (r matches Ok(s) && s@ == self.name@),
    {
        if a.is_closed() {
            Err(ErrorKind::InvalidHandle)
        } else {
            Ok(self.name.as_str().to_owned())
        }
    }

    /// Release the decoded-bytes cache. Idempotent.
    pub fn close(&mut self) -> (r: bool)
        ensures
            r == true,
            final(self).cache is None,
            final(self).cursor == old(self).cursor,
            final(self).codec_calls == old(self).codec_calls,
            final(self).name@ == old(self).name@,
            final(self).entry == old(self).entry,
            final(self).key == old(self).key,
            final(self).sector_size == old(self).sector_size,
            final(self).offsets@ == old(self).offsets@,
            final(self).raw@ == old(self).raw@,
            final(self).block_index == old(self).block_index,
    {
        self.cache = None;
        true
    }
}

/// The slice of decoded contents `c` that a read of `max_len` bytes from
/// `cursor` yields: the overlap of the request with the file.
pub open spec fn read_slice(c: Seq<u8>, cursor: int, max_len: int) -> Seq<u8> {
    let start = if cursor <= c.len() {
        cursor
    } else {
        c.len() as int
    };
    let end = if cursor + max_len <= c.len() {
        cursor + max_len
    } else {
        c.len() as int
    };
    c.subrange(start, end)
}

impl MPQFile {
    /// Decode the whole file once, counting one decode operation per sector.
    #[verifier::rlimit(100)]
    fn decode_all(&mut self, a: &MPQ) -> (r: Result<(), ErrorKind>)
        requires
            a.wf(),
            old(self).wf_for(a),
            old(self).cache is None,
        ensures
            final(self).wf_for(a),
            final(self).cursor == old(self).cursor,
            final(self).name@ == old(self).name@,
            final(self).entry == old(self).entry,
            final(self).offsets@ == old(self).offsets@,
            final(self).raw@ == old(self).raw@,
            final(self).key == old(self).key,
            final(self).sector_size == old(self).sector_size,
            final(self).block_index == old(self).block_index,
            match old(self).contents_spec() {
                Ok(c) => r is Ok && (final(self).cache matches Some(v) && v@ == c),
                Err(e) => r == Err::<(), ErrorKind>(e) && final(self).cache is None,
            },
            r is Ok ==> final(self).codec_calls == old(self).offsets@.len() - 1,
    {
        let ns = self.offsets.len() - 1;
        let mut out: Vec<u8> = Vec::new();
        let mut i: usize = 0;
        let mut calls: u32 = 0;
        while i < ns
            invariant
                a.wf(),
                self.wf_for(a),
                self.cache is None,
                *self == *old(self),
                ns == self.offsets@.len() - 1,
                i <= ns,
                calls == i,
                match sectors_spec(
                    self.raw@,
                    self.offsets@,
                    self.key,
                    self.encrypted(),
                    self.compressed(),
                    self.sector_size as nat,
                    self.entry.fsize as nat,
                    i as nat,
                ) {
                    Ok(rest) => self.contents_spec() == Ok::<Seq<u8>, ErrorKind>(out@ + rest),
                    Err(e) => self.contents_spec() == Err::<Seq<u8>, ErrorKind>(e),
                },
            decreases ns - i,
        {
            let lo = self.offsets[i] as usize;
            let hi = self.offsets[i + 1] as usize;
            assert(lo <= hi && hi <= self.raw@.len());
            let mut body: Vec<u8> = Vec::new();
            let mut k: usize = lo;
            while k < hi
                invariant
                    lo <= k <= hi,
                    hi <= self.raw@.len(),
                    body@ == self.raw@.subrange(lo as int, k as int),
                decreases hi - k,
            {
                body.push(self.raw[k]);
                proof {
                    assert(self.raw@.subrange(lo as int, k + 1) =~= self.raw@.subrange(
                        lo as int,
                        k as int,
                    ).push(self.raw@[k as int]));
                }
                k = k + 1;
            }
            let enc = self.entry.flags & FLAG_ENCRYPTED != 0;
            let dec: Vec<u8> = if enc {
                decrypt_bytes(&a.table, body.as_slice(), self.key.wrapping_add(i as u32))
            } else {
                body
            };
            let expected: usize = if i + 2 == self.offsets.len() {
                proof {
                    assert((i as int) * (self.sector_size as int) <= (self.offsets@.len() as int
                        - 2) * (self.sector_size as int)) by (nonlinear_arith)
                        requires
                            i as int == self.offsets@.len() as int - 2,
                            self.sector_size >= 1,
                    ;
                }
                (self.entry.fsize as usize) - i * (self.sector_size as usize)
            } else {
                self.sector_size as usize
            };
            let compressed = self.entry.flags & FLAG_COMPRESS != 0 || self.entry.flags
                & FLAG_IMPLODE != 0;
            match decode_sector(dec.as_slice(), expected, compressed) {
                Ok(sec) => {
                    calls = calls + 1;
                    let mut m: usize = 0;
                    let ghost outpre = out@;
                    while m < sec.len()
                        invariant
                            m <= sec@.len(),
                            out@ == outpre + sec@.subrange(0, m as int),
                        decreases sec@.len() - m,
                    {
                        out.push(sec[m]);
                        proof {
                            assert(outpre + sec@.subrange(0, m + 1) =~= (outpre + sec@.subrange(
                                0,
                                m as int,
                            )).push(sec@[m as int]));
                        }
                        m = m + 1;
                    }
                    proof {
                        assert(out@ =~= outpre + sec@);
                        assert((outpre + sec@) + (match sectors_spec(
                            self.raw@,
                            self.offsets@,
                            self.key,
                            self.encrypted(),
                            self.compressed(),
                            self.sector_size as nat,
                            self.entry.fsize as nat,
                            (i + 1) as nat,
                        ) {
                            Ok(rest2) => rest2,
                            Err(_) => Seq::empty(),
                        }) =~= outpre + (sec@ + (match sectors_spec(
                            self.raw@,
                            self.offsets@,
                            self.key,
                            self.encrypted(),
                            self.compressed(),
                            self.sector_size as nat,
                            self.entry.fsize as nat,
                            (i + 1) as nat,
                        ) {
                            Ok(rest2) => rest2,
                            Err(_) => Seq::empty(),
                        })));
                    }
                },
                Err(e) => {
                    self.codec_calls = calls;
                    return Err(e);
                },
            }
            i = i + 1;
        }
        self.codec_calls = calls;
        self.cache = Some(out);
        Ok(())
    }

    /// Read up to `max_len` decoded bytes at the cursor, advancing it by
    /// what was served; fewer bytes than requested come back only at the end
    /// of the file. A handle whose archive was closed fails with
    /// `InvalidHandle`; a sector that does not decode fails with the codec's
    /// error and leaves the cursor unchanged.
    pub fn read(&mut self, a: &MPQ, max_len: usize) -> (r: Result<Vec<u8>, ErrorKind>)
        requires
            a.wf(),
            old(self).wf_for(a),
        ensures
            final(self).wf_for(a),
            a.is_closed_spec() ==> r == Err::<Vec<u8>, ErrorKind>(ErrorKind::InvalidHandle)
                && *final(self) == *old(self),
            !a.is_closed_spec() ==> match old(self).contents_spec() {
                Ok(c) => (match r {
                    Ok(v) => v@ == read_slice(c, old(self).cursor as int, max_len as int)
                        && final(self).cursor == old(self).cursor + v@.len(),
                    Err(_) => false,
                }),
                Err(e) => r == Err::<Vec<u8>, ErrorKind>(e) && final(self).cursor == old(
                    self,
                ).cursor,
            },
            old(self).cache is Some ==> final(self).codec_calls == old(self).codec_calls,
            !a.is_closed_spec() && (old(self).cache is None) && (r is Ok)
                ==> final(self).codec_calls == old(self).offsets@.len() - 1,
            final(self).name@ == old(self).name@,
            final(self).entry == old(self).entry,
            final(self).offsets@ == old(self).offsets@,
            final(self).raw@ == old(self).raw@,
    {
        if a.is_closed() {
            return Err(ErrorKind::InvalidHandle);
        }
        if self.cache.is_none() {
            match self.decode_all(a) {
                Ok(()) => {},
                Err(e) => {
                    return Err(e);
                },
            }
        }
        let cl = match &self.cache {
            Some(c) => c.len(),
            None => 0,
        };
        let start = if self.cursor <= cl {
            self.cursor
        } else {
            cl
        };
        let avail = cl - start;
        let take = if max_len <= avail {
            max_len
        } else {
            avail
        };
        let ghost cv = self.cache->Some_0@;
        let mut v: Vec<u8> = Vec::new();
        let mut m: usize = 0;
        while m < take
            invariant
                m <= take,
                self.cache matches Some(cc) && cc@ == cv,
                cl == cv.len(),
                start + take <= cv.len(),
                v@ == cv.subrange(start as int, start as int + m),
            decreases take - m,
        {
            let b: u8 = match &self.cache {
                Some(cc) => cc[start + m],
                None => 0,
            };
            v.push(b);
            proof {
                assert(cv.subrange(start as int, start as int + m + 1) =~= cv.subrange(
                    start as int,
                    start as int + m,
                ).push(cv[start as int + m]));
            }
            m = m + 1;
        }
        proof {
            assert(v@ =~= read_slice(cv, self.cursor as int, max_len as int));
        }
        let new_cursor = self.cursor + v.len();
        self.cursor = new_cursor;
        Ok(v)
    }
}

/// The number of sectors a file of `fsize` bytes splits into.
pub open spec fn sector_count(fsize: nat, ss: nat) -> nat {
    ((fsize + ss - 1) as int / ss as int) as nat
}

/// Ceiling division behaves as the sector split needs: at least one sector,
/// the last one non-empty, all of the file covered.
pub proof fn lemma_sector_count(fsize: nat, ss: nat)
    requires
        ss >= 1,
        fsize >= 1,
    ensures
        1 <= sector_count(fsize, ss),
        (sector_count(fsize, ss) - 1) * ss < fsize,
        fsize <= sector_count(fsize, ss) * ss,
        sector_count(fsize, ss) <= fsize,
{
    let ns = (fsize + ss - 1) as int / ss as int;
    assert(1 <= ns && (ns - 1) * ss < fsize && fsize <= ns * ss && ns <= fsize)
        by (nonlinear_arith)
        requires
            ss >= 1,
            fsize >= 1,
            ns == (fsize + ss - 1) as int / ss as int,
    ;
}

/// When every sector decodes, the decoded tail from sector `i` on has
/// exactly the remaining decompressed length.
pub proof fn lemma_sectors_len(
    raw: Seq<u8>,
    ot: Seq<u32>,
    key: u32,
    enc: bool,
    compressed: bool,
    ss: nat,
    fsize: nat,
    i: nat,
)
    requires
        ot.len() >= 2,
        (ot.len() as int - 2) * ss <= fsize,
    ensures
        match sectors_spec(raw, ot, key, enc, compressed, ss, fsize, i) {
            Ok(c) => c.len() == if i < ot.len() - 1 {
                fsize - i * ss
            } else {
                0
            },
            Err(_) => true,
        },
    decreases ot.len() - i,
{
    if i + 1 < ot.len() {
        lemma_sectors_len(raw, ot, key, enc, compressed, ss, fsize, i + 1);
        if i + 2 < ot.len() {
            assert((i as int) * ss + ss == (i + 1) as int * ss) by (nonlinear_arith);
            assert((i as int + 1) * ss <= (ot.len() as int - 2) * ss) by (nonlinear_arith)
                requires
                    i as int + 1 <= ot.len() as int - 2,
                    ss >= 0,
            ;
        }
    }
}

/// Check a sector-offset table: non-empty, non-decreasing, inside the
/// stored size.
fn check_offsets(offsets: &Vec<u32>, csize: u32) -> (r: bool)
    ensures
        r == offsets_ok(offsets@, csize as nat),
{
    if offsets.len() == 0 {
        return false;
    }
    let mut j: usize = 0;
    while j < offsets.len()
        invariant
            j <= offsets@.len(),
            forall|t: int| 0 <= t < j ==> #[trigger] offsets@[t] <= csize,
            forall|t: int| 0 <= t < j - 1 ==> #[trigger] offsets@[t] <= offsets@[t + 1],
        decreases offsets@.len() - j,
    {
        if offsets[j] > csize {
            return false;
        }
        if j > 0 {
            let prev = offsets[j - 1];
            if prev > offsets[j] {
                return false;
            }
        }
        j = j + 1;
    }
    true
}

impl MPQ {
    /// The stored bytes of the block-table entry at `bi`.
    pub open spec fn raw_of(&self, bi: int) -> Seq<u8> {
        self.data@.subrange(
            self.header.base + self.block_table@[bi].file_pos,
            self.header.base + self.block_table@[bi].file_pos + self.block_table@[bi].csize,
        )
    }

    /// The sector length this archive splits files into.
    pub open spec fn sector_size_spec(&self) -> u32 {
        512u32 << self.header.sector_shift
    }

    /// The decryption key a handle on block `bi` opened under `name` uses.
    pub open spec fn file_key_for(&self, bi: int, name: Seq<u8>) -> u32 {
        let e = self.block_table@[bi];
        file_key_of(name, e.file_pos, e.fsize, e.flags & FLAG_FIX_KEY != 0)
    }

    /// The sector boundaries of the file at block `bi`: one trivial pair for
    /// an empty or single-unit file, the stored (possibly encrypted) offset
    /// table for a compressed file, the arithmetic split otherwise.
    pub open spec fn file_offsets_of(&self, bi: int, name: Seq<u8>) -> Seq<u32> {
        let e = self.block_table@[bi];
        let ss = self.sector_size_spec() as nat;
        if e.fsize == 0 {
            seq![0u32, 0u32]
        } else if e.flags & FLAG_SINGLE_UNIT != 0 {
            seq![0u32, e.csize]
        } else if e.flags & FLAG_COMPRESS != 0 || e.flags & FLAG_IMPLODE != 0 {
            let ns = sector_count(e.fsize as nat, ss);
            if e.flags & FLAG_ENCRYPTED != 0 {
                decrypt_seq(
                    words_le_at(self.raw_of(bi), 0, (ns + 1) as nat),
                    self.file_key_for(bi, name).wrapping_sub(1),
                    0xEEEEEEEE,
                )
            } else {
                words_le_at(self.raw_of(bi), 0, (ns + 1) as nat)
            }
        } else {
            let ns = sector_count(e.fsize as nat, ss);
            Seq::new(
                (ns + 1) as nat,
                |j: int| if j * ss <= e.fsize {
                    (j * ss) as u32
                } else {
                    e.fsize
                },
            )
        }
    }

    /// Whether the sector-boundary table of block `bi`'s file can be read:
    /// a stored table fits inside the stored bytes, and an uncompressed
    /// multi-sector file is stored contiguously.
    pub open spec fn boundary_ok(&self, bi: int) -> bool {
        let e = self.block_table@[bi];
        let ss = self.sector_size_spec() as nat;
        let multi = e.fsize != 0 && e.flags & FLAG_SINGLE_UNIT == 0;
        let compressed = e.flags & FLAG_COMPRESS != 0 || e.flags & FLAG_IMPLODE != 0;
        &&& ((multi && compressed) ==> 4 * (sector_count(e.fsize as nat, ss) + 1) <= e.csize)
        &&& ((multi && !compressed) ==> e.csize == e.fsize)
    }

    /// Whether a handle on block `bi` can be opened: the boundary table is
    /// readable and consistent.
    pub open spec fn handle_ok(&self, bi: int, name: Seq<u8>) -> bool {
        let e = self.block_table@[bi];
        let ss = self.sector_size_spec() as nat;
        let ot = self.file_offsets_of(bi, name);
        &&& self.boundary_ok(bi)
        &&& offsets_ok(ot, e.csize as nat)
        &&& 2 <= ot.len() <= 0x1000000
        &&& (ot.len() as int - 2) * (ss as int) <= e.fsize
    }

    /// What reading the whole file at block `bi` yields.
    pub open spec fn file_contents_of(&self, bi: int, name: Seq<u8>) -> Result<Seq<u8>, ErrorKind> {
        let e = self.block_table@[bi];
        sectors_spec(
            self.raw_of(bi),
            self.file_offsets_of(bi, name),
            self.file_key_for(bi, name),
            e.flags & FLAG_ENCRYPTED != 0,
            e.flags & FLAG_COMPRESS != 0 || e.flags & FLAG_IMPLODE != 0,
            self.sector_size_spec() as nat,
            e.fsize as nat,
            0,
        )
    }

    /// Compute the sector boundaries of block `bi`'s file: one trivial pair
    /// for an empty or single-unit file, the stored (possibly encrypted)
    /// table for a compressed file, the arithmetic split otherwise.
    #[verifier::rlimit(100)]
    #[verifier::spinoff_prover]
    fn compute_offsets(&self, bi: usize, name: &[u8], raw: &Vec<u8>, key: u32, ss: u32) -> (r:
        Result<Vec<u32>, ErrorKind>)
        requires
            self.wf(),
            bi < self.block_table@.len(),
            raw@ == self.raw_of(bi as int),
            key == self.file_key_for(bi as int, name@),
            ss == self.sector_size_spec(),
            1 <= ss <= 0x1000000,
            512 <= ss,
        ensures
            match r {
                Ok(v) => v@ == self.file_offsets_of(bi as int, name@) && self.boundary_ok(
                    bi as int,
                ),
                Err(e) => e == ErrorKind::FileCorrupt && !self.boundary_ok(bi as int),
            },
    {
        let e = self.block_table[bi];
        let single = e.flags & FLAG_SINGLE_UNIT != 0;
        let compressed = e.flags & FLAG_COMPRESS != 0 || e.flags & FLAG_IMPLODE != 0;
        let enc = e.flags & FLAG_ENCRYPTED != 0;
        if e.fsize == 0 {
            let mut v: Vec<u32> = Vec::new();
            v.push(0);
            v.push(0);
            proof {
                assert(v@ =~= seq![0u32, 0u32]);
            }
            Ok(v)
        } else if single {
            let mut v: Vec<u32> = Vec::new();
            v.push(0);
            v.push(e.csize);
            proof {
                assert(v@ =~= seq![0u32, e.csize]);
            }
            Ok(v)
        } else {
            proof {
                lemma_sector_count(e.fsize as nat, ss as nat);
                assert((sector_count(e.fsize as nat, ss as nat) - 1) * 512
                    <= (sector_count(e.fsize as nat, ss as nat) - 1) * (ss as int)) by (nonlinear_arith)
                    requires
                        512 <= ss as int,
                        sector_count(e.fsize as nat, ss as nat) >= 1,
                ;
            }
            let ns64 = ((e.fsize as u64) + (ss as u64) - 1) / (ss as u64);
            let ns = ns64 as usize;
            assert(ns == sector_count(e.fsize as nat, ss as nat));
            assert(ns <= 0xFFFFFF);
            if compressed {
                if raw.len() < 4 * (ns + 1) {
                    return Err(ErrorKind::FileCorrupt);
                }
                let mut w = read_words_le(raw.as_slice(), 0, ns + 1);
                if enc {
                    proof {
                        crate::crypt::lemma_decrypt_len(
                            words_le_at(raw@, 0, (ns + 1) as nat),
                            key.wrapping_sub(1),
                            0xEEEEEEEE,
                        );
                    }
                    decrypt_block(&self.table, &mut w, key.wrapping_sub(1));
                }
                Ok(w)
            } else {
                if e.csize != e.fsize {
                    return Err(ErrorKind::FileCorrupt);
                }
                let mut v: Vec<u32> = Vec::new();
                let mut j: usize = 0;
                while j <= ns
                    invariant
                        j <= ns + 1,
                        ns <= 0xFFFFFF,
                        1 <= ss <= 0x1000000,
                        v@.len() == j,
                        forall|t: int|
                            0 <= t < j ==> #[trigger] v@[t] == (if t * (ss as int) <= e.fsize {
                                (t * (ss as int)) as u32
                            } else {
                                e.fsize
                            }),
                    decreases ns + 1 - j,
                {
                    proof {
                        assert((j as int) * (ss as int) <= 0x1000000 * 0x1000000)
                            by (nonlinear_arith)
                            requires
                                0 <= j as int <= 0x1000000,
                                0 <= ss as int <= 0x1000000,
                        ;
                    }
                    let pos64 = (j as u64) * (ss as u64);
                    let val: u32 = if pos64 <= e.fsize as u64 {
                        pos64 as u32
                    } else {
                        e.fsize
                    };
                    v.push(val);
                    j = j + 1;
                }
                proof {
                    assert(v@ =~= self.file_offsets_of(bi as int, name@));
                }
                Ok(v)
            }
        }
    }

    /// Build a handle on the already resolved block `bi`: derive the key,
    /// compute and check the sector boundaries, and copy the stored bytes.
    #[verifier::rlimit(100)]
    #[verifier::spinoff_prover]
    fn open_handle(&self, bi: usize, name: &[u8], sname: String) -> (r: Result<
        MPQFile,
        ErrorKind,
    >)
        requires
            self.wf(),
            bi < self.block_table@.len(),
        ensures
            self.handle_ok(bi as int, name@) ==> (match r {
                Ok(f) => {
                    &&& f.wf_for(self)
                    &&& f.block_index == bi
                    &&& f.entry == self.block_table@[bi as int]
                    &&& f.key == self.file_key_for(bi as int, name@)
                    &&& f.sector_size == self.sector_size_spec()
                    &&& f.offsets@ == self.file_offsets_of(bi as int, name@)
                    &&& f.raw@ == self.raw_of(bi as int)
                    &&& f.cursor == 0
                    &&& f.cache is None
                    &&& f.codec_calls == 0
                    &&& f.name@ == sname@
                },
                Err(_) => false,
            }),
            !self.handle_ok(bi as int, name@) ==> r == Err::<MPQFile, ErrorKind>(
                ErrorKind::FileCorrupt,
            ),
    {
        let e = self.block_table[bi];
        let base = self.header.base as usize;
        let fp = e.file_pos as usize;
        let cs = e.csize as usize;
        assert(block_ok(e, self.header.base as int, self.data@.len() as int));
        let dlen = self.data.len();
        let mut raw: Vec<u8> = Vec::new();
        let mut k: usize = 0;
        while k < cs
            invariant
                k <= cs,
                dlen == self.data@.len(),
                base + fp + cs <= dlen,
                raw@ == self.data@.subrange((base + fp) as int, (base + fp) as int + k),
            decreases cs - k,
        {
            raw.push(self.data[base + fp + k]);
            proof {
                assert(self.data@.subrange((base + fp) as int, (base + fp) as int + k + 1)
                    =~= self.data@.subrange((base + fp) as int, (base + fp) as int + k).push(
                    self.data@[(base + fp + k) as int],
                ));
            }
            k = k + 1;
        }
        proof {
            assert(raw@ =~= self.raw_of(bi as int));
        }
        let key = derive_file_key(
            &self.table,
            name,
            e.file_pos,
            e.fsize,
            e.flags & FLAG_FIX_KEY != 0,
        );
        let sh: u16 = self.header.sector_shift;
        let ss: u32 = 512u32 << sh;
        assert(ss >= 512 && ss <= 0x1000000) by (bit_vector)
            requires
                ss == 512u32 << sh,
                sh <= 15,
        ;
        let offsets: Vec<u32> = match self.compute_offsets(bi, name, &raw, key, ss) {
            Ok(v) => v,
            Err(e2) => {
                return Err(e2);
            },
        };
        if offsets.len() < 2 || offsets.len() > 0x1000000 {
            return Err(ErrorKind::FileCorrupt);
        }
        if !check_offsets(&offsets, e.csize) {
            return Err(ErrorKind::FileCorrupt);
        }
        proof {
            assert((offsets@.len() as int - 2) * (ss as int) <= 0x1000000 * 0x1000000)
                by (nonlinear_arith)
                requires
                    0 <= offsets@.len() as int - 2 <= 0x1000000,
                    0 <= ss as int <= 0x1000000,
            ;
        }
        let nsec64 = (offsets.len() as u64) - 2;
        if nsec64 * (ss as u64) > e.fsize as u64 {
            return Err(ErrorKind::FileCorrupt);
        }
        Ok(
            MPQFile {
                name: sname,
                block_index: bi,
                entry: e,
                key,
                sector_size: ss,
                offsets,
                raw,
                cursor: 0,
                cache: None,
                codec_calls: 0,
            },
        )
    }

    /// Open a handle on a resolved file: derive its key, compute and check
    /// its sector boundaries, and copy its stored bytes. A missing or
    /// tombstoned name is `NotFound`; an unreadable boundary table is
    /// `FileCorrupt`; a handle on a closed archive is `InvalidHandle`.
    #[verifier::rlimit(100)]
    #[verifier::spinoff_prover]
    pub fn get_file(&self, name: &str) -> (r: Result<MPQFile, ErrorKind>)
        requires
            self.wf(),
        ensures
            self.is_closed_spec() ==> r == Err::<MPQFile, ErrorKind>(ErrorKind::InvalidHandle),
            !self.is_closed_spec() ==> match self.resolve_spec(
                name.spec_bytes(),
                (self.locale % 0x10000) as u16,
                0,
            ) {
                Resolution::Found(bi) => {
                    &&& (self.handle_ok(bi as int, name.spec_bytes()) ==> (match r {
                        Ok(f) => {
                            &&& f.wf_for(self)
                            &&& f.block_index == bi
                            &&& f.entry == self.block_table@[bi as int]
                            &&& f.key == self.file_key_for(bi as int, name.spec_bytes())
                            &&& f.sector_size == self.sector_size_spec()
                            &&& f.offsets@ == self.file_offsets_of(bi as int, name.spec_bytes())
                            &&& f.raw@ == self.raw_of(bi as int)
                            &&& f.cursor == 0
                            &&& f.cache is None
                            &&& f.codec_calls == 0
                            &&& f.name@ == name@
                        },
                        Err(_) => false,
                    }))
                    &&& (!self.handle_ok(bi as int, name.spec_bytes()) ==> r == Err::<
                        MPQFile,
                        ErrorKind,
                    >(ErrorKind::FileCorrupt))
                },
                _ => r == Err::<MPQFile, ErrorKind>(ErrorKind::NotFound),
            },
    {
        if self.is_closed() {
            return Err(ErrorKind::InvalidHandle);
        }
        let bi = match self.resolve_entry(name.as_bytes(), (self.locale % 0x10000) as u16, 0) {
            Resolution::Found(bi) => bi,
            _ => {
                return Err(ErrorKind::NotFound);
            },
        };
        self.open_handle(bi, name.as_bytes(), name.to_owned())
    }

    /// Stream the whole decoded contents of a named file out of the archive.
    #[verifier::rlimit(100)]
    #[verifier::spinoff_prover]
    pub fn extract(&self, name: &str) -> (r: Result<Vec<u8>, ErrorKind>)
        requires
            self.wf(),
        ensures
            self.is_closed_spec() ==> r == Err::<Vec<u8>, ErrorKind>(ErrorKind::InvalidHandle),
            !self.is_closed_spec() ==> match self.resolve_spec(
                name.spec_bytes(),
                (self.locale % 0x10000) as u16,
                0,
            ) {
                Resolution::Found(bi) => {
                    &&& (self.handle_ok(bi as int, name.spec_bytes()) ==> (match self.file_contents_of(
                        bi as int,
                        name.spec_bytes(),
                    ) {
                        Ok(c) => (match r {
                            Ok(v) => v@ == c,
                            Err(_) => false,
                        }),
                        Err(e) => r == Err::<Vec<u8>, ErrorKind>(e),
                    }))
                    &&& (!self.handle_ok(bi as int, name.spec_bytes()) ==> r == Err::<
                        Vec<u8>,
                        ErrorKind,
                    >(ErrorKind::FileCorrupt))
                },
                _ => r == Err::<Vec<u8>, ErrorKind>(ErrorKind::NotFound),
            },
    {
        let mut f = match self.get_file(name) {
            Ok(f) => f,
            Err(e) => {
                return Err(e);
            },
        };
        proof {
            let bi = f.block_index as int;
            lemma_sectors_len(
                f.raw@,
                f.offsets@,
                f.key,
                f.encrypted(),
                f.compressed(),
                f.sector_size as nat,
                f.entry.fsize as nat,
                0,
            );
        }
        let sz = f.entry.fsize;
        f.read(self, sz as usize)
    }
}

} // verus!
