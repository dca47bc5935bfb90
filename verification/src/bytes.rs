//! Big-endian integer codecs, byte-sequence helpers and the SFNT checksum.
use vstd::prelude::*;

verus! {

/// The unsigned 16-bit integer whose big-endian bytes are `b0 b1`.
pub open spec fn be16(b0: u8, b1: u8) -> u16 {
    (b0 * 256 + b1) as u16
}

/// The unsigned 32-bit integer whose big-endian bytes are `b0 b1 b2 b3`.
pub open spec fn be32(b0: u8, b1: u8, b2: u8, b3: u8) -> u32 {
    (b0 * 16777216 + b1 * 65536 + b2 * 256 + b3) as u32
}

/// The big-endian `u16` stored at `off` in `s`.
pub open spec fn get_be16(s: Seq<u8>, off: int) -> u16 {
    be16(s[off], s[off + 1])
}

/// The big-endian `u32` stored at `off` in `s`.
pub open spec fn get_be32(s: Seq<u8>, off: int) -> u32 {
    be32(s[off], s[off + 1], s[off + 2], s[off + 3])
}

/// The two big-endian bytes of `v`.
pub open spec fn be16_bytes(v: u16) -> Seq<u8> {
    seq![(v / 256) as u8, (v % 256) as u8]
}

/// The four big-endian bytes of `v`.
pub open spec fn be32_bytes(v: u32) -> Seq<u8> {
    seq![(v / 16777216) as u8, ((v / 65536) % 256) as u8, ((v / 256) % 256) as u8, (v % 256) as u8]
}

/// `s` with the bytes from `off` on replaced by `b`.
pub open spec fn splice(s: Seq<u8>, off: int, b: Seq<u8>) -> Seq<u8> {
    s.subrange(0, off) + b + s.subrange(off + b.len(), s.len() as int)
}

/// `n` zero bytes.
pub open spec fn zeros(n: nat) -> Seq<u8> {
    Seq::new(n, |i: int| 0u8)
}

/// `n` rounded up to a multiple of four.
pub open spec fn align4(n: int) -> int {
    (n + 3) / 4 * 4
}

/// Wrapping (mod 2^32) addition.
pub open spec fn wrap_add(a: u32, b: u32) -> u32 {
    if a + b > u32::MAX {
        (a + b - 0x1_0000_0000) as u32
    } else {
        (a + b) as u32
    }
}

/// Wrapping (mod 2^32) subtraction.
pub open spec fn wrap_sub(a: u32, b: u32) -> u32 {
    if a - b < 0 {
        (a - b + 0x1_0000_0000) as u32
    } else {
        (a - b) as u32
    }
}

/// The byte at `i`, or zero past either end of `s`.
pub open spec fn byte_or_zero(s: Seq<u8>, i: int) -> u8 {
    if 0 <= i < s.len() {
        s[i]
    } else {
        0
    }
}

/// The big-endian word starting at `p`, zero-padded past the end of `s`.
pub open spec fn word_at(s: Seq<u8>, p: int) -> u32 {
    be32(byte_or_zero(s, p), byte_or_zero(s, p + 1), byte_or_zero(s, p + 2), byte_or_zero(s, p + 3))
}

/// Wrapping sum of the first `k` big-endian words of `s`.
pub open spec fn word_sum(s: Seq<u8>, k: nat) -> u32
    decreases k,
{
    if k == 0 {
        0
    } else {
        wrap_add(word_sum(s, (k - 1) as nat), word_at(s, 4 * (k - 1)))
    }
}

/// Number of 4-byte words covering `len` bytes.
pub open spec fn word_count(len: nat) -> nat {
    ((len + 3) / 4) as nat
}

/// SFNT table checksum: the wrapping sum of `s` read as big-endian `u32`s,
/// zero-padded to a multiple of four bytes.
pub open spec fn checksum(s: Seq<u8>) -> u32 {
    word_sum(s, word_count(s.len()))
}

/// The `u32` built from four bytes, most significant first.
pub fn be32_from(b0: u8, b1: u8, b2: u8, b3: u8) -> (r: u32)
    ensures
        r == be32(b0, b1, b2, b3),
{
    (b0 as u32) * 16777216 + (b1 as u32) * 65536 + (b2 as u32) * 256 + (b3 as u32)
}

/// Read the big-endian `u16` at `off`.
pub fn read_u16(data: &[u8], off: usize) -> (r: u16)
    requires
        off + 2 <= data@.len(),
    ensures
        r == get_be16(data@, off as int),
{
    (data[off] as u16) * 256 + (data[off + 1] as u16)
}

/// Read the big-endian `u32` at `off`.
pub fn read_u32(data: &[u8], off: usize) -> (r: u32)
    requires
        off + 4 <= data@.len(),
    ensures
        r == get_be32(data@, off as int),
{
    be32_from(data[off], data[off + 1], data[off + 2], data[off + 3])
}

/// Append the big-endian bytes of `v`.
pub fn push_u16(out: &mut Vec<u8>, v: u16)
    ensures
        final(out)@ == old(out)@ + be16_bytes(v),
{
    out.push((v / 256) as u8);
    out.push((v % 256) as u8);
    assert(final(out)@ =~= old(out)@ + be16_bytes(v));
}

/// Append the big-endian bytes of `v`.
pub fn push_u32(out: &mut Vec<u8>, v: u32)
    ensures
        final(out)@ == old(out)@ + be32_bytes(v),
{
    out.push((v / 16777216) as u8);
    out.push(((v / 65536) % 256) as u8);
    out.push(((v / 256) % 256) as u8);
    out.push((v % 256) as u8);
    assert(final(out)@ =~= old(out)@ + be32_bytes(v));
}

/// Overwrite the four bytes at `off` with the big-endian bytes of `v`.
pub fn set_u32(out: &mut Vec<u8>, off: usize, v: u32)
    requires
        off + 4 <= old(out)@.len(),
    ensures
        final(out)@ == splice(old(out)@, off as int, be32_bytes(v)),
{
    let n = out.len();
    assert(off + 4 <= n);
    out.set(off, (v / 16777216) as u8);
    out.set(off + 1, ((v / 65536) % 256) as u8);
    out.set(off + 2, ((v / 256) % 256) as u8);
    out.set(off + 3, (v % 256) as u8);
    assert(final(out)@ =~= splice(old(out)@, off as int, be32_bytes(v)));
}

/// Append `n` zero bytes.
pub fn push_zeros(out: &mut Vec<u8>, n: usize)
    ensures
        final(out)@ == old(out)@ + zeros(n as nat),
{
    let mut i: usize = 0;
    while i < n
        invariant
            i <= n,
            out@ == old(out)@ + zeros(i as nat),
        decreases n - i,
    {
        out.push(0u8);
        i = i + 1;
        assert(out@ =~= old(out)@ + zeros(i as nat));
    }
}

/// The word at `p` (zero-padded past the end of `data`).
fn word_at_exec(data: &[u8], p: usize) -> (r: u32)
    requires
        p < data@.len(),
    ensures
        r == word_at(data@, p as int),
{
    let len = data.len();
    let b1 = if len - p > 1 { data[p + 1] } else { 0u8 };
    let b2 = if len - p > 2 { data[p + 2] } else { 0u8 };
    let b3 = if len - p > 3 { data[p + 3] } else { 0u8 };
    be32_from(data[p], b1, b2, b3)
}

/// SFNT table checksum of `data` (see [`checksum`]).
pub fn table_checksum(data: &[u8]) -> (r: u32)
    ensures
        r == checksum(data@),
{
    let len = data.len();
    let words: usize = len / 4 + if len % 4 == 0 { 0 } else { 1 };
    assert(words == word_count(len as nat));
    let mut sum: u32 = 0;
    let mut k: usize = 0;
    while k < words
        invariant
            len == data@.len(),
            words == word_count(len as nat),
            k <= words,
            sum == word_sum(data@, k as nat),
        decreases words - k,
    {
        let w = word_at_exec(data, 4 * k);
        sum = sum.wrapping_add(w);
        k = k + 1;
    }
    sum
}

/// Round `n` up to a multiple of four.
pub fn align4_exec(n: usize) -> (r: usize)
    requires
        align4(n as int) <= usize::MAX,
    ensures
        r == align4(n as int),
        n <= r <= n + 3,
        r % 4 == 0,
{
    assert(align4(n as int) == n + (4 - n % 4) % 4);
    n + (4 - n % 4) % 4
}

/// Splicing keeps the length and the bytes outside the spliced range, and
/// puts `b` at `off`.
pub proof fn lemma_splice(s: Seq<u8>, off: int, b: Seq<u8>)
    requires
        0 <= off,
        off + b.len() <= s.len(),
    ensures
        splice(s, off, b).len() == s.len(),
        forall|x: int|
            0 <= x < s.len() && (x < off || off + b.len() <= x) ==> #[trigger] splice(s, off, b)[x] == s[x],
        forall|k: int| 0 <= k < b.len() ==> #[trigger] splice(s, off, b)[off + k] == b[k],
        splice(s, off, b).subrange(off, off + b.len()) == b,
{
    let r = splice(s, off, b);
    assert forall|x: int| 0 <= x < s.len() && (x < off || off + b.len() <= x) implies #[trigger] r[x]
        == s[x] by {
        if x < off {
            assert(r[x] == s.subrange(0, off)[x]);
        } else {
            assert(r[x] == s.subrange(off + b.len(), s.len() as int)[x - off - b.len()]);
        }
    }
    assert forall|k: int| 0 <= k < b.len() implies #[trigger] r[off + k] == b[k] by {
        assert(r[off + k] == (s.subrange(0, off) + b)[off + k]);
    }
    assert(r.subrange(off, off + b.len()) =~= b);
}

/// `align4(n)` is the least multiple of four at or above `n`.
pub proof fn lemma_align4(n: int)
    requires
        0 <= n,
    ensures
        n <= align4(n) < n + 4,
        align4(n) % 4 == 0,
        align4(n) >= 0,
{
    assert(n <= (n + 3) / 4 * 4 < n + 4) by (nonlinear_arith)
        requires 0 <= n;
    assert(((n + 3) / 4 * 4) % 4 == 0) by (nonlinear_arith)
        requires 0 <= n;
}

/// Reading back the big-endian bytes of a `u32` gives the value.
pub proof fn lemma_be32_roundtrip(v: u32)
    ensures
        be32_bytes(v).len() == 4,
        get_be32(be32_bytes(v), 0) == v,
{
    assert(v / 16777216 < 256) by (nonlinear_arith)
        requires v <= u32::MAX;
    assert((v / 16777216) * 16777216 + ((v / 65536) % 256) * 65536 + ((v / 256) % 256) * 256 + v % 256 == v)
        by (nonlinear_arith);
}

/// Reading back the big-endian bytes of a `u16` gives the value.
pub proof fn lemma_be16_roundtrip(v: u16)
    ensures
        be16_bytes(v).len() == 2,
        get_be16(be16_bytes(v), 0) == v,
{
    assert((v / 256) * 256 + v % 256 == v) by (nonlinear_arith);
}

/// The big-endian bytes of a stored `u32` are the stored bytes.
pub proof fn lemma_be32_bytes_of_get(s: Seq<u8>, off: int)
    requires
        0 <= off,
        off + 4 <= s.len(),
    ensures
        be32_bytes(get_be32(s, off)) == s.subrange(off, off + 4),
{
    let (a, b, c, d) = (s[off], s[off + 1], s[off + 2], s[off + 3]);
    let v = get_be32(s, off);
    assert(v / 16777216 == a && (v / 65536) % 256 == b && (v / 256) % 256 == c && v % 256 == d)
        by (nonlinear_arith)
        requires
            v == a * 16777216 + b * 65536 + c * 256 + d,
            a < 256, b < 256, c < 256, d < 256;
    assert(be32_bytes(v) =~= s.subrange(off, off + 4));
}

/// The unwrapped sum of the first `k` big-endian words of `s`.
pub open spec fn word_total(s: Seq<u8>, k: nat) -> int
    decreases k,
{
    if k == 0 {
        0
    } else {
        word_total(s, (k - 1) as nat) + word_at(s, 4 * (k - 1))
    }
}

/// Wrapping addition is addition modulo 2^32.
pub proof fn lemma_wrap_add_mod(a: u32, b: u32)
    ensures
        wrap_add(a, b) as int == (a + b) % 0x1_0000_0000,
{
}

/// The wrapping word sum is the unwrapped one modulo 2^32.
pub proof fn lemma_word_sum_mod(s: Seq<u8>, k: nat)
    ensures
        word_sum(s, k) as int == word_total(s, k) % 0x1_0000_0000,
    decreases k,
{
    if k > 0 {
        let w = word_at(s, 4 * (k - 1));
        lemma_word_sum_mod(s, (k - 1) as nat);
        lemma_wrap_add_mod(word_sum(s, (k - 1) as nat), w);
        vstd::arithmetic::div_mod::lemma_add_mod_noop(word_total(s, (k - 1) as nat), w as int, 0x1_0000_0000);
        assert(w as int % 0x1_0000_0000 == w as int);
        assert((word_total(s, (k - 1) as nat) % 0x1_0000_0000) % 0x1_0000_0000 == word_total(s, (k - 1) as nat)
            % 0x1_0000_0000) by {
            vstd::arithmetic::div_mod::lemma_mod_twice(word_total(s, (k - 1) as nat), 0x1_0000_0000);
        }
    }
}

/// Writing `a` into the zero word at `4 * q` adds `a` to the unwrapped sum
/// of every prefix that covers it.
proof fn lemma_word_total_set(z: Seq<u8>, q: int, a: u32, k: nat)
    requires
        0 <= q,
        4 * q + 4 <= z.len(),
        z[4 * q] == 0 && z[4 * q + 1] == 0 && z[4 * q + 2] == 0 && z[4 * q + 3] == 0,
    ensures
        word_total(splice(z, 4 * q, be32_bytes(a)), k) == word_total(z, k) + if k > q { a as int } else { 0 },
    decreases k,
{
    let s = splice(z, 4 * q, be32_bytes(a));
    lemma_be32_roundtrip(a);
    lemma_splice(z, 4 * q, be32_bytes(a));
    if k > 0 {
        lemma_word_total_set(z, q, a, (k - 1) as nat);
        let i = k - 1;
        if i == q {
            assert(s[4 * q] == be32_bytes(a)[0] && s[4 * q + 1] == be32_bytes(a)[1]);
            assert(s[4 * q + 2] == be32_bytes(a)[2] && s[4 * q + 3] == be32_bytes(a)[3]);
            assert(word_at(s, 4 * i) == get_be32(be32_bytes(a), 0));
            assert(z[4 * q] == 0 && z[4 * q + 1] == 0 && z[4 * q + 2] == 0 && z[4 * q + 3] == 0);
            assert(word_at(z, 4 * i) == 0);
        } else {
            assert(byte_or_zero(s, 4 * i) == byte_or_zero(z, 4 * i));
            assert(byte_or_zero(s, 4 * i + 1) == byte_or_zero(z, 4 * i + 1));
            assert(byte_or_zero(s, 4 * i + 2) == byte_or_zero(z, 4 * i + 2));
            assert(byte_or_zero(s, 4 * i + 3) == byte_or_zero(z, 4 * i + 3));
        }
    }
}

/// Writing `a` into a zero, aligned word of `z` adds `a` (wrapping) to its
/// checksum.
pub proof fn lemma_checksum_set_word(z: Seq<u8>, q: int, a: u32)
    requires
        0 <= q,
        4 * q + 4 <= z.len(),
        z[4 * q] == 0 && z[4 * q + 1] == 0 && z[4 * q + 2] == 0 && z[4 * q + 3] == 0,
    ensures
        checksum(splice(z, 4 * q, be32_bytes(a))) == wrap_add(checksum(z), a),
{
    let s = splice(z, 4 * q, be32_bytes(a));
    lemma_be32_roundtrip(a);
    lemma_splice(z, 4 * q, be32_bytes(a));
    let k = word_count(z.len());
    assert(k > q);
    lemma_word_total_set(z, q, a, k);
    lemma_word_sum_mod(s, k);
    lemma_word_sum_mod(z, k);
    lemma_wrap_add_mod(checksum(z), a);
    let t = word_total(z, k);
    vstd::arithmetic::div_mod::lemma_add_mod_noop(t, a as int, 0x1_0000_0000);
    assert(a as int % 0x1_0000_0000 == a as int);
    vstd::arithmetic::div_mod::lemma_mod_twice(t, 0x1_0000_0000);
}

/// Adding the wrapping difference `m - c` to `c` gives `m`.
pub proof fn lemma_wrap_add_sub(c: u32, m: u32)
    ensures
        wrap_add(c, wrap_sub(m, c)) == m,
{
}

} // verus!
