//! Little-endian integers in byte strings.

use vstd::prelude::*;

verus! {

/// The bytes of an optional byte vector.
pub open spec fn opt_bytes(o: Option<Vec<u8>>) -> Option<Seq<u8>> {
    match o {
        Some(v) => Some(v@),
        None => None,
    }
}

/// The two bytes of `x`, least significant first.
pub open spec fn u16_le(x: u16) -> Seq<u8> {
    seq![(x & 0xff) as u8, (x >> 8) as u8]
}

/// The four bytes of `x`, least significant first.
pub open spec fn u32_le(x: u32) -> Seq<u8> {
    seq![(x & 0xff) as u8, ((x >> 8) & 0xff) as u8, ((x >> 16) & 0xff) as u8, (x >> 24) as u8]
}

/// The eight bytes of `x`, least significant first.
pub open spec fn u64_le(x: u64) -> Seq<u8> {
    seq![
        (x & 0xff) as u8,
        ((x >> 8) & 0xff) as u8,
        ((x >> 16) & 0xff) as u8,
        ((x >> 24) & 0xff) as u8,
        ((x >> 32) & 0xff) as u8,
        ((x >> 40) & 0xff) as u8,
        ((x >> 48) & 0xff) as u8,
        (x >> 56) as u8,
    ]
}

/// The little-endian `u16` stored at `off` in `s`.
pub open spec fn get_u16(s: Seq<u8>, off: int) -> u16 {
    (s[off] as u16) | ((s[off + 1] as u16) << 8u16)
}

/// The little-endian `u32` stored at `off` in `s`.
pub open spec fn get_u32(s: Seq<u8>, off: int) -> u32 {
    (s[off] as u32) | ((s[off + 1] as u32) << 8u32) | ((s[off + 2] as u32) << 16u32) | ((
    s[off + 3] as u32) << 24u32)
}

/// The little-endian `u64` stored at `off` in `s`.
pub open spec fn get_u64(s: Seq<u8>, off: int) -> u64 {
    (get_u32(s, off) as u64) | ((get_u32(s, off + 4) as u64) << 32u64)
}

/// Reads the little-endian `u16` at `off`.
pub fn read_u16(s: &[u8], off: usize) -> (v: u16)
    requires
        off + 2 <= s@.len(),
    ensures
        v == get_u16(s@, off as int),
{
    (s[off] as u16) | ((s[off + 1] as u16) << 8u16)
}

/// Reads the little-endian `u32` at `off`.
pub fn read_u32(s: &[u8], off: usize) -> (v: u32)
    requires
        off + 4 <= s@.len(),
    ensures
        v == get_u32(s@, off as int),
{
    (s[off] as u32) | ((s[off + 1] as u32) << 8u32) | ((s[off + 2] as u32) << 16u32) | ((s[off
        + 3] as u32) << 24u32)
}

/// Reads the little-endian `u64` at `off`.
pub fn read_u64(s: &[u8], off: usize) -> (v: u64)
    requires
        off + 8 <= s@.len(),
        off + 8 <= usize::MAX,
    ensures
        v == get_u64(s@, off as int),
{
    (read_u32(s, off) as u64) | ((read_u32(s, off + 4) as u64) << 32u64)
}

/// Appends the two little-endian bytes of `x`.
pub fn push_u16(v: &mut Vec<u8>, x: u16)
    ensures
        final(v)@ == old(v)@ + u16_le(x),
{
    v.push((x & 0xff) as u8);
    v.push((x >> 8) as u8);
    assert(final(v)@ =~= old(v)@ + u16_le(x));
}

/// Appends the four little-endian bytes of `x`.
pub fn push_u32(v: &mut Vec<u8>, x: u32)
    ensures
        final(v)@ == old(v)@ + u32_le(x),
{
    v.push((x & 0xff) as u8);
    v.push(((x >> 8) & 0xff) as u8);
    v.push(((x >> 16) & 0xff) as u8);
    v.push((x >> 24) as u8);
    assert(final(v)@ =~= old(v)@ + u32_le(x));
}

/// Appends the eight little-endian bytes of `x`.
pub fn push_u64(v: &mut Vec<u8>, x: u64)
    ensures
        final(v)@ == old(v)@ + u64_le(x),
{
    v.push((x & 0xff) as u8);
    v.push(((x >> 8) & 0xff) as u8);
    v.push(((x >> 16) & 0xff) as u8);
    v.push(((x >> 24) & 0xff) as u8);
    v.push(((x >> 32) & 0xff) as u8);
    v.push(((x >> 40) & 0xff) as u8);
    v.push(((x >> 48) & 0xff) as u8);
    v.push((x >> 56) as u8);
    assert(final(v)@ =~= old(v)@ + u64_le(x));
}

/// Whether two byte strings are equal.
pub fn bytes_equal(a: &[u8], b: &[u8]) -> (r: bool)
    ensures
        r == (a@ == b@),
{
    if a.len() != b.len() {
        return false;
    }
    let mut i: usize = 0;
    while i < a.len()
        invariant
            i <= a@.len(),
            a@.len() == b@.len(),
            forall|j: int| 0 <= j < i ==> a@[j] == b@[j],
        decreases a@.len() - i,
    {
        if a[i] != b[i] {
            return false;
        }
        i = i + 1;
    }
    assert(a@ =~= b@);
    true
}

/// `s` with the bytes from `off` on replaced by `b`.
pub open spec fn put(s: Seq<u8>, off: int, b: Seq<u8>) -> Seq<u8> {
    s.take(off) + b + s.skip(off + b.len())
}

/// Stores the little-endian `u16` `x` at `off`.
pub fn put_u16(v: &mut Vec<u8>, off: usize, x: u16)
    requires
        off + 2 <= old(v)@.len(),
    ensures
        final(v)@ == put(old(v)@, off as int, u16_le(x)),
{
    let _ = v.len();
    v.set(off, (x & 0xff) as u8);
    v.set(off + 1, (x >> 8) as u8);
    assert(final(v)@ =~= put(old(v)@, off as int, u16_le(x)));
}

/// Stores the little-endian `u32` `x` at `off`.
pub fn put_u32(v: &mut Vec<u8>, off: usize, x: u32)
    requires
        off + 4 <= old(v)@.len(),
    ensures
        final(v)@ == put(old(v)@, off as int, u32_le(x)),
{
    let _ = v.len();
    v.set(off, (x & 0xff) as u8);
    v.set(off + 1, ((x >> 8) & 0xff) as u8);
    v.set(off + 2, ((x >> 16) & 0xff) as u8);
    v.set(off + 3, (x >> 24) as u8);
    assert(final(v)@ =~= put(old(v)@, off as int, u32_le(x)));
}

/// Appends `n` zero bytes.
pub fn push_zeros(v: &mut Vec<u8>, n: usize)
    ensures
        final(v)@ == old(v)@ + Seq::new(n as nat, |i: int| 0u8),
{
    let ghost start = v@;
    let mut i: usize = 0;
    while i < n
        invariant
            i <= n,
            v@ =~= start + Seq::new(i as nat, |j: int| 0u8),
        decreases n - i,
    {
        v.push(0u8);
        i = i + 1;
    }
}

/// Reading back a little-endian `u16` gives the value written.
pub proof fn lemma_u16_le_roundtrip(x: u16)
    ensures
        get_u16(u16_le(x), 0) == x,
        u16_le(x).len() == 2,
{
    let s = u16_le(x);
    assert(s[0] == (x & 0xff) as u8 && s[1] == (x >> 8) as u8);
    assert((((x & 0xff) as u8) as u16) | ((((x >> 8) as u8) as u16) << 8u16) == x)
        by (bit_vector);
}

/// Reading back a little-endian `u32` gives the value written.
pub proof fn lemma_u32_le_roundtrip(x: u32)
    ensures
        get_u32(u32_le(x), 0) == x,
        u32_le(x).len() == 4,
{
    let s = u32_le(x);
    assert(s[0] == (x & 0xff) as u8 && s[1] == ((x >> 8) & 0xff) as u8 && s[2] == ((x >> 16)
        & 0xff) as u8 && s[3] == (x >> 24) as u8);
    assert((((x & 0xff) as u8) as u32) | ((((x >> 8) & 0xff) as u8 as u32) << 8u32) | ((((x
        >> 16) & 0xff) as u8 as u32) << 16u32) | ((((x >> 24) as u8) as u32) << 24u32) == x)
        by (bit_vector);
}

/// Reading back a little-endian `u64` gives the value written.
pub proof fn lemma_u64_le_roundtrip(x: u64)
    ensures
        get_u64(u64_le(x), 0) == x,
        u64_le(x).len() == 8,
{
    let s = u64_le(x);
    let lo: u32 = (x & 0xffff_ffff) as u32;
    let hi: u32 = (x >> 32) as u32;
    let l = u32_le(lo);
    let h = u32_le(hi);
    assert((x & 0xff) as u8 == (lo & 0xff) as u8) by (bit_vector)
        requires lo == (x & 0xffff_ffff) as u32;
    assert(((x >> 8) & 0xff) as u8 == ((lo >> 8) & 0xff) as u8) by (bit_vector)
        requires lo == (x & 0xffff_ffff) as u32;
    assert(((x >> 16) & 0xff) as u8 == ((lo >> 16) & 0xff) as u8) by (bit_vector)
        requires lo == (x & 0xffff_ffff) as u32;
    assert(((x >> 24) & 0xff) as u8 == (lo >> 24) as u8) by (bit_vector)
        requires lo == (x & 0xffff_ffff) as u32;
    assert(((x >> 32) & 0xff) as u8 == (hi & 0xff) as u8) by (bit_vector)
        requires hi == (x >> 32) as u32;
    assert(((x >> 40) & 0xff) as u8 == ((hi >> 8) & 0xff) as u8) by (bit_vector)
        requires hi == (x >> 32) as u32;
    assert(((x >> 48) & 0xff) as u8 == ((hi >> 16) & 0xff) as u8) by (bit_vector)
        requires hi == (x >> 32) as u32;
    assert((x >> 56) as u8 == (hi >> 24) as u8) by (bit_vector)
        requires hi == (x >> 32) as u32;
    lemma_u32_le_roundtrip(lo);
    lemma_u32_le_roundtrip(hi);
    assert(s[0] == l[0] && s[1] == l[1] && s[2] == l[2] && s[3] == l[3]);
    assert(s[4] == h[0] && s[5] == h[1] && s[6] == h[2] && s[7] == h[3]);
    assert(get_u32(s, 0) == get_u32(l, 0));
    assert(get_u32(s, 4) == get_u32(h, 0));
    assert(((lo as u64) | ((hi as u64) << 32u64)) == x) by (bit_vector)
        requires
            lo == (x & 0xffff_ffff) as u32,
            hi == (x >> 32) as u32,
    ;
}

/// After storing a little-endian `u32` at `off`, the `u32` read at `off`
/// is the value stored, and the bytes elsewhere are unchanged.
pub proof fn lemma_put_u32_read_back(s: Seq<u8>, off: int, x: u32)
    requires
        0 <= off,
        off + 4 <= s.len(),
    ensures
        get_u32(put(s, off, u32_le(x)), off) == x,
        put(s, off, u32_le(x)).len() == s.len(),
        forall|i: int|
            0 <= i < s.len() && !(off <= i < off + 4) ==> #[trigger] put(s, off, u32_le(x))[i]
                == s[i],
{
    lemma_u32_le_roundtrip(x);
    let p = put(s, off, u32_le(x));
    assert(p.subrange(off, off + 4) =~= u32_le(x));
    assert(p[off] == u32_le(x)[0] && p[off + 1] == u32_le(x)[1] && p[off + 2] == u32_le(x)[2]
        && p[off + 3] == u32_le(x)[3]);
}

/// Storing `b` at `off` inside `s` keeps its length and every byte outside
/// `[off, off + b.len())`.
pub proof fn lemma_put_frame(s: Seq<u8>, off: int, b: Seq<u8>)
    requires
        0 <= off,
        off + b.len() <= s.len(),
    ensures
        put(s, off, b).len() == s.len(),
        forall|i: int|
            0 <= i < s.len() && !(off <= i < off + b.len()) ==> #[trigger] put(s, off, b)[i]
                == s[i],
{
}

} // verus!
