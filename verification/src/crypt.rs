use vstd::prelude::*;
use vstd::pervasive::VecAdditionalExecFns;

verus! {

/// The hash seeds select which of the four persisted hash functions is
/// computed from a file name.
#[derive(Clone, Copy, Debug, PartialEq, Eq, Structural)]
pub enum HashType {
    /// Seeds the probe start offset into the hash table.
    TableOffset,
    /// First stored verification hash of a hash-table entry.
    NameA,
    /// Second stored verification hash of a hash-table entry.
    NameB,
    /// Base value of a file's decryption key.
    FileKey,
}

impl HashType {
    /// The hash-type slot inside the substitution table.
    pub open spec fn code_spec(self) -> int {
        match self {
            HashType::TableOffset => 0,
            HashType::NameA => 1,
            HashType::NameB => 2,
            HashType::FileKey => 3,
        }
    }

    /// Executable form of `code_spec`.
    pub fn code(&self) -> (r: usize)
        ensures
            r == self.code_spec(),
    {
        match self {
            HashType::TableOffset => 0,
            HashType::NameA => 1,
            HashType::NameB => 2,
            HashType::FileKey => 3,
        }
    }
}

/// The pseudo-random seed stream that generates the substitution table:
/// the fixed start value advanced `n` times by the format's multiplicative
/// congruence.
pub open spec fn crypt_seed(n: nat) -> int
    decreases n,
{
    if n == 0 {
        0x100001
    } else {
        (crypt_seed((n - 1) as nat) * 125 + 3) % 0x2AAAAB
    }
}

/// Every seed value is a non-negative number below the modulus.
pub proof fn lemma_crypt_seed_range(n: nat)
    ensures
        0 <= crypt_seed(n) < 0x2AAAAB,
    decreases n,
{
    if n > 0 {
        lemma_crypt_seed_range((n - 1) as nat);
    }
}

/// Entry `idx` of the 0x500-word substitution table. Entries are generated
/// column-major: each low-byte position fills its slot in all five hash-type
/// groups before the next position, two seed steps per entry.
pub open spec fn table_entry(idx: int) -> u32 {
    let group = idx / 0x100;
    let pos = idx % 0x100;
    let k = pos * 5 + group;
    let hi = crypt_seed((2 * k + 1) as nat) % 0x10000;
    let lo = crypt_seed((2 * k + 2) as nat) % 0x10000;
    (hi * 0x10000 + lo) as u32
}

/// The precomputed substitution table that the hash and cipher walk. It is
/// fixed data of the format, rebuilt at construction and immutable after.
pub struct CryptTable {
    pub data: Vec<u32>,
}

impl CryptTable {
    /// The table holds exactly the format's 0x500 generated words.
    pub open spec fn wf(&self) -> bool {
        &&& self.data@.len() == 0x500
        &&& forall|j: int| 0 <= j < 0x500 ==> self.data@[j] == table_entry(j)
    }

    /// Generate the substitution table from the fixed seed.
    pub fn new() -> (r: CryptTable)
        ensures
            r.wf(),
    {
        let mut data: Vec<u32> = Vec::new();
        let mut j: usize = 0;
        while j < 0x500
            invariant
                data@.len() == j,
                j <= 0x500,
            decreases 0x500 - j,
        {
            data.push(0);
            j = j + 1;
        }
        let mut seed: u32 = 0x100001;
        let mut pos: usize = 0;
        while pos < 0x100
            invariant
                data@.len() == 0x500,
                pos <= 0x100,
                seed == crypt_seed((pos * 10) as nat),
                0 <= seed < 0x2AAAAB,
                forall|p: int, g: int|
                    0 <= p < pos && 0 <= g < 5 ==> #[trigger] data@[p + 0x100 * g] == table_entry(
                        p + 0x100 * g,
                    ),
            decreases 0x100 - pos,
        {
            let mut group: usize = 0;
            while group < 5
                invariant
                    data@.len() == 0x500,
                    pos < 0x100,
                    group <= 5,
                    seed == crypt_seed((pos * 10 + 2 * group) as nat),
                    0 <= seed < 0x2AAAAB,
                    forall|p: int, g: int|
                        0 <= p < pos && 0 <= g < 5 ==> #[trigger] data@[p + 0x100 * g] == table_entry(
                            p + 0x100 * g,
                        ),
                    forall|g: int|
                        0 <= g < group ==> #[trigger] data@[pos + 0x100 * g] == table_entry(
                            pos + 0x100 * g,
                        ),
                decreases 5 - group,
            {
                proof {
                    lemma_crypt_seed_range((pos * 10 + 2 * group + 1) as nat);
                    lemma_crypt_seed_range((pos * 10 + 2 * group + 2) as nat);
                }
                seed = (seed * 125 + 3) % 0x2AAAAB;
                assert(seed & 0xFFFF < 0x10000) by (bit_vector);
                let hi: u32 = (seed & 0xFFFF) * 0x10000;
                seed = (seed * 125 + 3) % 0x2AAAAB;
                let lo: u32 = seed & 0xFFFF;
                let idx = pos + 0x100 * group;
                proof {
                    let s1 = crypt_seed((pos * 10 + 2 * group + 1) as nat);
                    let s2 = crypt_seed((pos * 10 + 2 * group + 2) as nat);
                    assert((s1 as u32) & 0xFFFF == s1 % 0x10000 && (s2 as u32) & 0xFFFF == s2
                        % 0x10000 && s1 % 0x10000 < 0x10000 && s2 % 0x10000 >= 0) by {
                        assert(forall|x: u32| #![auto] x & 0xFFFF == x % 0x10000) by (bit_vector);
                    };
                    assert(idx % 0x100 == pos && idx / 0x100 == group) by (nonlinear_arith)
                        requires
                            idx == pos + 0x100 * group,
                            0 <= pos < 0x100,
                            0 <= group < 5,
                    ;
                }
                data.set(idx, hi + lo);
                group = group + 1;
            }
            pos = pos + 1;
            proof {
                assert(forall|p: int, g: int|
                    0 <= p < pos && 0 <= g < 5 ==> #[trigger] data@[p + 0x100 * g] == table_entry(
                        p + 0x100 * g,
                    ));
            }
        }
        proof {
            assert forall|j: int| 0 <= j < 0x500 implies data@[j] == table_entry(j) by {
                let p = j % 0x100;
                let g = j / 0x100;
                assert(j == p + 0x100 * g && 0 <= p < 0x100 && 0 <= g < 5) by (nonlinear_arith)
                    requires
                        0 <= j < 0x500,
                        p == j % 0x100,
                        g == j / 0x100,
                ;
            }
        }
        CryptTable { data }
    }

    /// Look up one table word.
    pub fn at(&self, idx: usize) -> (r: u32)
        requires
            self.wf(),
            idx < 0x500,
        ensures
            r == table_entry(idx as int),
    {
        self.data[idx]
    }
}

/// Canonical form of one name byte: lower-case ASCII letters become upper
/// case, and the forward-slash separator becomes the canonical backslash.
pub open spec fn norm_byte(c: u8) -> u8 {
    if c == 0x2F {
        0x5C
    } else if 0x61 <= c && c <= 0x7A {
        (c - 0x20) as u8
    } else {
        c
    }
}

/// Executable form of `norm_byte`.
pub fn normalize_byte(c: u8) -> (r: u8)
    ensures
        r == norm_byte(c),
{
    if c == 0x2F {
        0x5C
    } else if 0x61 <= c && c <= 0x7A {
        c - 0x20
    } else {
        c
    }
}

/// The canonical form of a whole name.
pub open spec fn normalize(s: Seq<u8>) -> Seq<u8> {
    s.map_values(|c: u8| norm_byte(c))
}

/// One step of the name hash: fold the canonical byte `c` into the running
/// pair of accumulators for hash-type slot `t`.
pub open spec fn hash_step(c: u8, s1: u32, s2: u32, t: int) -> (u32, u32) {
    let e = table_entry(t * 0x100 + c);
    let n1 = e ^ s1.wrapping_add(s2);
    let n2 = (c as u32).wrapping_add(n1).wrapping_add(s2).wrapping_add(s2 << 5).wrapping_add(3);
    (n1, n2)
}

/// The accumulator pair after hashing all of `s` (already canonical bytes)
/// in hash-type slot `t`.
pub open spec fn hash_state(s: Seq<u8>, t: int) -> (u32, u32)
    decreases s.len(),
{
    if s.len() == 0 {
        (0x7FED7FEDu32, 0xEEEEEEEEu32)
    } else {
        let prev = hash_state(s.drop_last(), t);
        hash_step(s.last(), prev.0, prev.1, t)
    }
}

/// The persisted hash of name bytes `s` under hash type `t`: names are
/// canonicalized byte by byte before folding.
pub open spec fn hash_of(s: Seq<u8>, t: int) -> u32 {
    hash_state(normalize(s), t).0
}

/// The hash depends on the name only through its canonical form, so two
/// names that differ in ASCII letter case or in the separator direction
/// hash identically.
pub proof fn lemma_hash_insensitive(s1: Seq<u8>, s2: Seq<u8>, t: int)
    requires
        normalize(s1) == normalize(s2),
    ensures
        hash_of(s1, t) == hash_of(s2, t),
{
}

/// Normalizing is idempotent: hashing an already canonical name gives the
/// same value as hashing the original.
pub proof fn lemma_hash_normalized(s: Seq<u8>, t: int)
    ensures
        hash_of(normalize(s), t) == hash_of(s, t),
    decreases s.len(),
{
    assert(normalize(normalize(s)) =~= normalize(s));
}

/// Compute the persisted name hash of `name` under `hash_type`.
pub fn hash_name(table: &CryptTable, name: &[u8], hash_type: HashType) -> (r: u32)
    requires
        table.wf(),
    ensures
        r == hash_of(name@, hash_type.code_spec()),
{
    let t = hash_type.code();
    let mut s1: u32 = 0x7FED7FED;
    let mut s2: u32 = 0xEEEEEEEE;
    let mut i: usize = 0;
    while i < name.len()
        invariant
            table.wf(),
            i <= name@.len(),
            t == hash_type.code_spec(),
            (s1, s2) == hash_state(normalize(name@).subrange(0, i as int), t as int),
        decreases name@.len() - i,
    {
        let c = normalize_byte(name[i]);
        let e = table.at(t * 0x100 + (c as usize));
        let n1 = e ^ s1.wrapping_add(s2);
        let n2 = (c as u32).wrapping_add(n1).wrapping_add(s2).wrapping_add(s2 << 5).wrapping_add(
            3,
        );
        proof {
            let norm = normalize(name@);
            assert(norm.subrange(0, i + 1).drop_last() =~= norm.subrange(0, i as int));
            assert(norm.subrange(0, i + 1).last() == norm[i as int]);
        }
        s1 = n1;
        s2 = n2;
        i = i + 1;
    }
    proof {
        assert(normalize(name@).subrange(0, name@.len() as int) =~= normalize(name@));
    }
    s1
}

/// The suffix of a name after its last path separator (either direction);
/// the whole name when it has no separator.
pub open spec fn base_name(s: Seq<u8>) -> Seq<u8>
    decreases s.len(),
{
    if s.len() == 0 {
        s
    } else if s.last() == 0x2F || s.last() == 0x5C {
        Seq::empty()
    } else {
        base_name(s.drop_last()).push(s.last())
    }
}

/// A suffix that contains no separator and starts right after one (or at the
/// start of the name) is the base name.
pub proof fn lemma_base_name_suffix(s: Seq<u8>, start: int)
    requires
        0 <= start <= s.len(),
        forall|j: int| start <= j < s.len() ==> s[j] != 0x2F && s[j] != 0x5C,
        start > 0 ==> s[start - 1] == 0x2F || s[start - 1] == 0x5C,
    ensures
        base_name(s) == s.subrange(start, s.len() as int),
    decreases s.len(),
{
    if s.len() == 0 {
        assert(base_name(s) =~= s.subrange(start, s.len() as int));
    } else if start == s.len() {
        if start > 0 {
            assert(s.last() == s[start - 1]);
            assert(base_name(s) =~= s.subrange(start, s.len() as int));
        }
    } else {
        lemma_base_name_suffix(s.drop_last(), start);
        assert(s.drop_last().subrange(start, s.len() - 1) =~= s.subrange(start, s.len() - 1));
        assert(base_name(s) =~= s.subrange(start, s.len() as int));
    }
}

/// Derive the decryption key of a file from its name and block metadata:
/// the `FileKey` hash of the path-stripped base name, offset-adjusted when
/// the block carries the fix-key flag.
pub fn derive_file_key(
    table: &CryptTable,
    name: &[u8],
    block_offset: u32,
    file_size: u32,
    uses_fix_key: bool,
) -> (r: u32)
    requires
        table.wf(),
    ensures
        r == file_key_of(name@, block_offset, file_size, uses_fix_key),
{
    let mut start: usize = name.len();
    while start > 0 && name[start - 1] != 0x2F && name[start - 1] != 0x5C
        invariant
            start <= name@.len(),
            forall|j: int| start <= j < name@.len() ==> name@[j] != 0x2F && name@[j] != 0x5C,
        decreases start,
    {
        start = start - 1;
    }
    proof {
        lemma_base_name_suffix(name@, start as int);
    }
    let mut base: Vec<u8> = Vec::new();
    let mut i: usize = start;
    while i < name.len()
        invariant
            start <= i <= name@.len(),
            base@ == name@.subrange(start as int, i as int),
        decreases name@.len() - i,
    {
        base.push(name[i]);
        proof {
            assert(name@.subrange(start as int, i + 1) =~= name@.subrange(start as int, i as int).push(
                name@[i as int],
            ));
        }
        i = i + 1;
    }
    let key = hash_name(table, base.as_slice(), HashType::FileKey);
    if uses_fix_key {
        key.wrapping_add(block_offset) ^ file_size
    } else {
        key
    }
}

/// The decryption key of a file: the `FileKey` hash of the base name,
/// combined with the block offset and file size when `uses_fix_key` holds.
pub open spec fn file_key_of(name: Seq<u8>, block_offset: u32, file_size: u32, uses_fix_key: bool) -> u32 {
    let k = hash_of(base_name(name), 3);
    if uses_fix_key {
        k.wrapping_add(block_offset) ^ file_size
    } else {
        k
    }
}

/// The cipher's key schedule: the per-word rotation of the running key.
pub open spec fn key_next(key: u32) -> u32 {
    (((!key) << 21).wrapping_add(0x11111111)) | (key >> 11)
}

/// Decrypt a word sequence under `key` with running seed `seed`.
pub open spec fn decrypt_seq(w: Seq<u32>, key: u32, seed: u32) -> Seq<u32>
    decreases w.len(),
{
    if w.len() == 0 {
        Seq::empty()
    } else {
        let sd = seed.wrapping_add(table_entry(0x400 + (key & 0xFF)));
        let plain = w[0] ^ key.wrapping_add(sd);
        let sd2 = plain.wrapping_add(sd).wrapping_add(sd << 5).wrapping_add(3);
        seq![plain] + decrypt_seq(w.drop_first(), key_next(key), sd2)
    }
}

/// Encrypt a word sequence under `key` with running seed `seed`.
pub open spec fn encrypt_seq(w: Seq<u32>, key: u32, seed: u32) -> Seq<u32>
    decreases w.len(),
{
    if w.len() == 0 {
        Seq::empty()
    } else {
        let sd = seed.wrapping_add(table_entry(0x400 + (key & 0xFF)));
        let enc = w[0] ^ key.wrapping_add(sd);
        let sd2 = (w[0]).wrapping_add(sd).wrapping_add(sd << 5).wrapping_add(3);
        seq![enc] + encrypt_seq(w.drop_first(), key_next(key), sd2)
    }
}

/// Decryption inverts encryption word for word: both walk the same key
/// schedule, and the running seed is fed the plaintext on both sides.
pub proof fn lemma_decrypt_encrypt(w: Seq<u32>, key: u32, seed: u32)
    ensures
        decrypt_seq(encrypt_seq(w, key, seed), key, seed) == w,
    decreases w.len(),
{
    if w.len() == 0 {
        assert(decrypt_seq(encrypt_seq(w, key, seed), key, seed) =~= w);
    } else {
        let sd = seed.wrapping_add(table_entry(0x400 + (key & 0xFF)));
        let x = key.wrapping_add(sd);
        let w0 = w[0];
        assert((w0 ^ x) ^ x == w0) by (bit_vector);
        let e = encrypt_seq(w, key, seed);
        assert(e[0] == w[0] ^ x);
        assert(e.drop_first() =~= encrypt_seq(
            w.drop_first(),
            key_next(key),
            (w[0]).wrapping_add(sd).wrapping_add(sd << 5).wrapping_add(3),
        ));
        lemma_decrypt_encrypt(
            w.drop_first(),
            key_next(key),
            (w[0]).wrapping_add(sd).wrapping_add(sd << 5).wrapping_add(3),
        );
        assert(decrypt_seq(e, key, seed) =~= w);
    }
}

/// Decryption preserves the word count.
pub proof fn lemma_decrypt_len(w: Seq<u32>, key: u32, seed: u32)
    ensures
        decrypt_seq(w, key, seed).len() == w.len(),
    decreases w.len(),
{
    if w.len() > 0 {
        lemma_decrypt_len(w.drop_first(), key_next(key), (w[0] ^ key.wrapping_add(
            seed.wrapping_add(table_entry(0x400 + (key & 0xFF))),
        )).wrapping_add(seed.wrapping_add(table_entry(0x400 + (key & 0xFF)))).wrapping_add(
            (seed.wrapping_add(table_entry(0x400 + (key & 0xFF)))) << 5,
        ).wrapping_add(3));
    }
}

/// Decrypt `w` in place under `key`, starting from the cipher's fixed seed.
#[verifier::rlimit(100)]
pub fn decrypt_block(table: &CryptTable, w: &mut Vec<u32>, key: u32)
    requires
        table.wf(),
    ensures
        final(w)@ == decrypt_seq(old(w)@, key, 0xEEEEEEEE),
{
    let ghost orig = w@;
    let mut k: u32 = key;
    let mut seed: u32 = 0xEEEEEEEE;
    let mut i: usize = 0;
    proof {
        assert(orig.subrange(0, orig.len() as int) =~= orig);
        assert(w@.subrange(0, 0) =~= Seq::<u32>::empty());
        assert(Seq::<u32>::empty() + decrypt_seq(orig, key, 0xEEEEEEEE) =~= decrypt_seq(
            orig,
            key,
            0xEEEEEEEE,
        ));
        assert(Seq::<u32>::empty() + encrypt_seq(orig, key, 0xEEEEEEEE) =~= encrypt_seq(
            orig,
            key,
            0xEEEEEEEE,
        ));
    }
    while i < w.len()
        invariant
            table.wf(),
            i <= w@.len(),
            w@.len() == orig.len(),
            w@.subrange(i as int, w@.len() as int) == orig.subrange(i as int, orig.len() as int),
            decrypt_seq(orig, key, 0xEEEEEEEE) == w@.subrange(0, i as int) + decrypt_seq(
                orig.subrange(i as int, orig.len() as int),
                k,
                seed,
            ),
        decreases w@.len() - i,
    {
        let ghost pre = w@;
        assert(k & 0xFF < 0x100) by (bit_vector);
        let sd = seed.wrapping_add(table.at(0x400 + ((k & 0xFF) as usize)));
        let plain = w[i] ^ k.wrapping_add(sd);
        w.set(i, plain);
        let ghost rest = orig.subrange(i as int, orig.len() as int);
        proof {
            assert(rest[0] == pre[i as int]);
            assert(rest.drop_first() =~= orig.subrange(i + 1, orig.len() as int));
            assert(decrypt_seq(rest, k, seed) == seq![plain] + decrypt_seq(
                rest.drop_first(),
                key_next(k),
                plain.wrapping_add(sd).wrapping_add(sd << 5).wrapping_add(3),
            ));
            assert(w@.subrange(0, i + 1) =~= pre.subrange(0, i as int) + seq![plain]);
            assert(w@.subrange(i + 1, w@.len() as int) =~= orig.subrange(i + 1, orig.len() as int));
            assert(w@.subrange(0, i as int) + (seq![plain] + decrypt_seq(
                orig.subrange(i + 1, orig.len() as int),
                key_next(k),
                plain.wrapping_add(sd).wrapping_add(sd << 5).wrapping_add(3),
            )) =~= w@.subrange(0, i + 1) + decrypt_seq(
                orig.subrange(i + 1, orig.len() as int),
                key_next(k),
                plain.wrapping_add(sd).wrapping_add(sd << 5).wrapping_add(3),
            ));
        }
        k = (((!k) << 21).wrapping_add(0x11111111)) | (k >> 11);
        seed = plain.wrapping_add(sd).wrapping_add(sd << 5).wrapping_add(3);
        i = i + 1;
    }
    proof {
        assert(w@.subrange(0, w@.len() as int) =~= w@);
        assert(decrypt_seq(orig.subrange(orig.len() as int, orig.len() as int), k, seed)
            =~= Seq::<u32>::empty());
    }
}

/// Encrypt `w` in place under `key`, starting from the cipher's fixed seed.
#[verifier::rlimit(100)]
pub fn encrypt_block(table: &CryptTable, w: &mut Vec<u32>, key: u32)
    requires
        table.wf(),
    ensures
        final(w)@ == encrypt_seq(old(w)@, key, 0xEEEEEEEE),
{
    let ghost orig = w@;
    let mut k: u32 = key;
    let mut seed: u32 = 0xEEEEEEEE;
    let mut i: usize = 0;
    proof {
        assert(orig.subrange(0, orig.len() as int) =~= orig);
        assert(w@.subrange(0, 0) =~= Seq::<u32>::empty());
        assert(Seq::<u32>::empty() + decrypt_seq(orig, key, 0xEEEEEEEE) =~= decrypt_seq(
            orig,
            key,
            0xEEEEEEEE,
        ));
        assert(Seq::<u32>::empty() + encrypt_seq(orig, key, 0xEEEEEEEE) =~= encrypt_seq(
            orig,
            key,
            0xEEEEEEEE,
        ));
    }
    while i < w.len()
        invariant
            table.wf(),
            i <= w@.len(),
            w@.len() == orig.len(),
            w@.subrange(i as int, w@.len() as int) == orig.subrange(i as int, orig.len() as int),
            encrypt_seq(orig, key, 0xEEEEEEEE) == w@.subrange(0, i as int) + encrypt_seq(
                orig.subrange(i as int, orig.len() as int),
                k,
                seed,
            ),
        decreases w@.len() - i,
    {
        let ghost pre = w@;
        assert(k & 0xFF < 0x100) by (bit_vector);
        let sd = seed.wrapping_add(table.at(0x400 + ((k & 0xFF) as usize)));
        let plain = w[i];
        let enc = plain ^ k.wrapping_add(sd);
        w.set(i, enc);
        let ghost rest = orig.subrange(i as int, orig.len() as int);
        proof {
            assert(rest[0] == pre[i as int]);
            assert(rest.drop_first() =~= orig.subrange(i + 1, orig.len() as int));
            assert(encrypt_seq(rest, k, seed) == seq![enc] + encrypt_seq(
                rest.drop_first(),
                key_next(k),
                plain.wrapping_add(sd).wrapping_add(sd << 5).wrapping_add(3),
            ));
            assert(w@.subrange(0, i + 1) =~= pre.subrange(0, i as int) + seq![enc]);
            assert(w@.subrange(i + 1, w@.len() as int) =~= orig.subrange(i + 1, orig.len() as int));
            assert(w@.subrange(0, i as int) + (seq![enc] + encrypt_seq(
                orig.subrange(i + 1, orig.len() as int),
                key_next(k),
                plain.wrapping_add(sd).wrapping_add(sd << 5).wrapping_add(3),
            )) =~= w@.subrange(0, i + 1) + encrypt_seq(
                orig.subrange(i + 1, orig.len() as int),
                key_next(k),
                plain.wrapping_add(sd).wrapping_add(sd << 5).wrapping_add(3),
            ));
        }
        k = (((!k) << 21).wrapping_add(0x11111111)) | (k >> 11);
        seed = plain.wrapping_add(sd).wrapping_add(sd << 5).wrapping_add(3);
        i = i + 1;
    }
    proof {
        assert(w@.subrange(0, w@.len() as int) =~= w@);
        assert(encrypt_seq(orig.subrange(orig.len() as int, orig.len() as int), k, seed)
            =~= Seq::<u32>::empty());
    }
}

} // verus!
