use vstd::prelude::*;
use vstd::pervasive::VecAdditionalExecFns;

verus! {

/// The little-endian 32-bit word stored at byte offset `i` of `s`.
pub open spec fn u32_le_at(s: Seq<u8>, i: int) -> u32 {
    (s[i] as u32) | ((s[i + 1] as u32) << 8) | ((s[i + 2] as u32) << 16) | ((s[i + 3] as u32)
        << 24)
}

/// The little-endian 16-bit word stored at byte offset `i` of `s`.
pub open spec fn u16_le_at(s: Seq<u8>, i: int) -> u16 {
    (s[i] as u16) | ((s[i + 1] as u16) << 8)
}

/// The four little-endian bytes of `x`, low byte first.
pub open spec fn u32_le_bytes(x: u32) -> Seq<u8> {
    seq![(x & 0xFF) as u8, ((x >> 8) & 0xFF) as u8, ((x >> 16) & 0xFF) as u8, ((x >> 24) & 0xFF) as u8]
}

/// Reading back the four bytes of `u32_le_bytes` yields the original word.
pub proof fn lemma_u32_le_round_trip(x: u32)
    ensures
        u32_le_at(u32_le_bytes(x), 0) == x,
{
    assert(((x & 0xFF) as u8 as u32) | ((((x >> 8) & 0xFF) as u8 as u32) << 8) | ((((x >> 16)
        & 0xFF) as u8 as u32) << 16) | ((((x >> 24) & 0xFF) as u8 as u32) << 24) == x)
        by (bit_vector);
}

/// Read the little-endian `u32` at offset `off`.
pub fn read_u32_le(data: &[u8], off: usize) -> (r: u32)
    requires
        off + 4 <= data@.len(),
    ensures
        r == u32_le_at(data@, off as int),
{
    (data[off] as u32) | ((data[off + 1] as u32) << 8) | ((data[off + 2] as u32) << 16) | ((
    data[off + 3] as u32) << 24)
}

/// Read the little-endian `u16` at offset `off`.
pub fn read_u16_le(data: &[u8], off: usize) -> (r: u16)
    requires
        off + 2 <= data@.len(),
    ensures
        r == u16_le_at(data@, off as int),
{
    (data[off] as u16) | ((data[off + 1] as u16) << 8)
}

/// Append the four little-endian bytes of `x` to `out`.
pub fn push_u32_le(out: &mut Vec<u8>, x: u32)
    ensures
        final(out)@ == old(out)@ + u32_le_bytes(x),
{
    out.push((x & 0xFF) as u8);
    out.push(((x >> 8) & 0xFF) as u8);
    out.push(((x >> 16) & 0xFF) as u8);
    out.push(((x >> 24) & 0xFF) as u8);
    assert(out@ =~= old(out)@ + u32_le_bytes(x));
}

/// Append the two little-endian bytes of `x` to `out`.
pub fn push_u16_le(out: &mut Vec<u8>, x: u16)
    ensures
        final(out)@ == old(out)@ + seq![(x & 0xFF) as u8, ((x >> 8) & 0xFF) as u8],
{
    out.push((x & 0xFF) as u8);
    out.push(((x >> 8) & 0xFF) as u8);
    assert(out@ =~= old(out)@ + seq![(x & 0xFF) as u8, ((x >> 8) & 0xFF) as u8]);
}

/// The sequence of `n` little-endian words stored in `s` from offset `base`.
pub open spec fn words_le_at(s: Seq<u8>, base: int, n: nat) -> Seq<u32> {
    Seq::new(n, |i: int| u32_le_at(s, base + 4 * i))
}

/// Gather the `n` little-endian words at byte offset `base` of `data`.
pub fn read_words_le(data: &[u8], base: usize, n: usize) -> (r: Vec<u32>)
    requires
        base + 4 * n <= data@.len(),
    ensures
        r@ == words_le_at(data@, base as int, n as nat),
{
    let dlen: usize = data.len();
    let mut r: Vec<u32> = Vec::new();
    let mut i: usize = 0;
    while i < n
        invariant
            i <= n,
            dlen == data@.len(),
            base + 4 * n <= dlen,
            r@.len() == i,
            forall|j: int| 0 <= j < i ==> r@[j] == u32_le_at(data@, base + 4 * j),
        decreases n - i,
    {
        r.push(read_u32_le(data, base + 4 * i));
        i = i + 1;
    }
    assert(r@ =~= words_le_at(data@, base as int, n as nat));
    r
}

/// Append each word of `w` to `out` as four little-endian bytes.
pub fn push_words_le(out: &mut Vec<u8>, w: &Vec<u32>)
    ensures
        final(out)@.len() == old(out)@.len() + 4 * w@.len(),
        words_le_at(final(out)@, old(out)@.len() as int, w@.len() as nat) == w@,
        final(out)@.subrange(0, old(out)@.len() as int) == old(out)@,
{
    let base = out.len();
    let ghost base0 = out@.len() as int;
    let mut i: usize = 0;
    while i < w.len()
        invariant
            i <= w@.len(),
            out@.len() == base0 + 4 * i,
            base == base0,
            out@.subrange(0, base0) == old(out)@,
            forall|j: int| 0 <= j < i ==> u32_le_at(out@, base0 + 4 * j) == w@[j],
        decreases w@.len() - i,
    {
        let ghost pre = out@;
        push_u32_le(out, w[i]);
        proof {
            assert(out@.subrange(0, base0) =~= pre.subrange(0, base0));
            lemma_u32_le_round_trip(w@[i as int]);
            assert forall|j: int| 0 <= j < i + 1 implies u32_le_at(out@, base0 + 4 * j) == w@[j] by {
                if j < i {
                    assert(u32_le_at(pre, base0 + 4 * j) == w@[j]);
                    assert(u32_le_at(out@, base0 + 4 * j) == u32_le_at(pre, base0 + 4 * j));
                } else {
                    assert(out@[base0 + 4 * j] == u32_le_bytes(w@[j])[0]);
                    assert(out@[base0 + 4 * j + 1] == u32_le_bytes(w@[j])[1]);
                    assert(out@[base0 + 4 * j + 2] == u32_le_bytes(w@[j])[2]);
                    assert(out@[base0 + 4 * j + 3] == u32_le_bytes(w@[j])[3]);
                    assert(u32_le_at(out@, base0 + 4 * j) == u32_le_at(u32_le_bytes(w@[j]), 0));
                }
            }
        }
        i = i + 1;
    }
    assert(words_le_at(out@, base0, w@.len() as nat) =~= w@);
}

/// Overwrite the four bytes at `i` with the little-endian form of `x`.
pub fn write_u32_at(out: &mut Vec<u8>, i: usize, x: u32)
    requires
        i + 4 <= old(out)@.len(),
    ensures
        final(out)@.len() == old(out)@.len(),
        u32_le_at(final(out)@, i as int) == x,
        forall|j: int|
            0 <= j < old(out)@.len() && !(i <= j < i + 4) ==> final(out)@[j] == old(out)@[j],
{
    let n = out.len();
    assert(i + 4 <= n);
    out.set(i, (x & 0xFF) as u8);
    out.set(i + 1, ((x >> 8) & 0xFF) as u8);
    out.set(i + 2, ((x >> 16) & 0xFF) as u8);
    out.set(i + 3, ((x >> 24) & 0xFF) as u8);
    proof {
        lemma_u32_le_round_trip(x);
        assert(out@[i as int] == u32_le_bytes(x)[0]);
        assert(out@[i + 1] == u32_le_bytes(x)[1]);
        assert(out@[i + 2] == u32_le_bytes(x)[2]);
        assert(out@[i + 3] == u32_le_bytes(x)[3]);
        assert(u32_le_at(out@, i as int) == u32_le_at(u32_le_bytes(x), 0));
    }
}

/// Copy a byte slice into a fresh vector.
pub fn copy_bytes(data: &[u8]) -> (r: Vec<u8>)
    ensures
        r@ == data@,
{
    let dlen = data.len();
    let mut r: Vec<u8> = Vec::new();
    let mut k: usize = 0;
    while k < dlen
        invariant
            k <= dlen,
            dlen == data@.len(),
            r@ == data@.subrange(0, k as int),
        decreases dlen - k,
    {
        r.push(data[k]);
        proof {
            assert(data@.subrange(0, k + 1) =~= data@.subrange(0, k as int).push(
                data@[k as int],
            ));
        }
        k = k + 1;
    }
    assert(r@ =~= data@);
    r
}

/// Overwrite the five changeable header words (archive size, the two table
/// positions, the two table counts) in place, leaving every other byte.
pub fn patch_header_words(out: &mut Vec<u8>, base: usize, total: u32, hp: u32, bp: u32, hc: u32, bc: u32)
    requires
        base + 32 <= old(out)@.len(),
    ensures
        final(out)@.len() == old(out)@.len(),
        u32_le_at(final(out)@, base + 8) == total,
        u32_le_at(final(out)@, base + 16) == hp,
        u32_le_at(final(out)@, base + 20) == bp,
        u32_le_at(final(out)@, base + 24) == hc,
        u32_le_at(final(out)@, base + 28) == bc,
        forall|j: int|
            0 <= j < old(out)@.len() && !(base + 8 <= j < base + 12) && !(base + 16 <= j < base
                + 32) ==> final(out)@[j] == old(out)@[j],
{
    let n = out.len();
    assert(base + 32 <= n);
    write_u32_at(out, base + 8, total);
    write_u32_at(out, base + 16, hp);
    write_u32_at(out, base + 20, bp);
    write_u32_at(out, base + 24, hc);
    write_u32_at(out, base + 28, bc);
}

} // verus!
