//! Fixed-width integers inside byte buffers, and overwriting a stretch of bytes.
use vstd::prelude::*;

verus! {

/// `s` with the bytes from `off` on replaced by `d`; what would reach past
/// either end of `s` is dropped, so the length never changes.
pub open spec fn put(s: Seq<u8>, off: int, d: Seq<u8>) -> Seq<u8> {
    Seq::new(s.len(), |i: int| if off <= i < off + d.len() { d[i - off] } else { s[i] })
}

/// `n` zero bytes.
pub open spec fn zeros(n: int) -> Seq<u8> {
    Seq::new(n as nat, |i: int| 0u8)
}

/// Little-endian 16-bit value at `off`.
#[verifier::opaque]
pub open spec fn le16(s: Seq<u8>, off: int) -> u16 {
    (s[off] + 256 * s[off + 1]) as u16
}

/// Little-endian 32-bit value at `off`.
#[verifier::opaque]
pub open spec fn le32(s: Seq<u8>, off: int) -> u32 {
    (s[off] + 256 * s[off + 1] + 65536 * s[off + 2] + 16777216 * s[off + 3]) as u32
}

/// Big-endian 16-bit value at `off`.
#[verifier::opaque]
pub open spec fn be16(s: Seq<u8>, off: int) -> u16 {
    (s[off + 1] + 256 * s[off]) as u16
}

/// Big-endian 32-bit value at `off`.
#[verifier::opaque]
pub open spec fn be32(s: Seq<u8>, off: int) -> u32 {
    (s[off + 3] + 256 * s[off + 2] + 65536 * s[off + 1] + 16777216 * s[off]) as u32
}

/// The two bytes of `v`, low byte first.
#[verifier::opaque]
pub open spec fn le16_bytes(v: u16) -> Seq<u8> {
    seq![(v % 256) as u8, (v / 256) as u8]
}

/// The four bytes of `v`, low byte first.
#[verifier::opaque]
pub open spec fn le32_bytes(v: u32) -> Seq<u8> {
    seq![
        (v % 256) as u8,
        (v / 256 % 256) as u8,
        (v / 65536 % 256) as u8,
        (v / 16777216) as u8,
    ]
}

/// The two bytes of `v`, high byte first.
#[verifier::opaque]
pub open spec fn be16_bytes(v: u16) -> Seq<u8> {
    seq![(v / 256) as u8, (v % 256) as u8]
}

/// The four bytes of `v`, high byte first.
#[verifier::opaque]
pub open spec fn be32_bytes(v: u32) -> Seq<u8> {
    seq![
        (v / 16777216) as u8,
        (v / 65536 % 256) as u8,
        (v / 256 % 256) as u8,
        (v % 256) as u8,
    ]
}

/// A written value is read back, in either byte order and width.
pub proof fn law_codec_round_trip(s: Seq<u8>, off: int, a: u16, b: u32)
    ensures
        0 <= off && off + 2 <= s.len() ==> le16(put(s, off, le16_bytes(a)), off) == a && be16(
            put(s, off, be16_bytes(a)),
            off,
        ) == a,
        0 <= off && off + 4 <= s.len() ==> le32(put(s, off, le32_bytes(b)), off) == b && be32(
            put(s, off, be32_bytes(b)),
            off,
        ) == b,
{
    reveal(le16);
    reveal(le32);
    reveal(be16);
    reveal(be32);
    reveal(le16_bytes);
    reveal(le32_bytes);
    reveal(be16_bytes);
    reveal(be32_bytes);
}

pub broadcast proof fn lemma_le16_same(s: Seq<u8>, off: int, v: u16)
    requires
        0 <= off,
        off + 2 <= s.len(),
    ensures
        #[trigger] le16(put(s, off, le16_bytes(v)), off) == v,
{
    law_codec_round_trip(s, off, v, 0);
}

pub broadcast proof fn lemma_le16_len(v: u16)
    ensures
        #[trigger] le16_bytes(v).len() == 2,
{
    reveal(le16_bytes);
}

pub broadcast proof fn lemma_le16_frame(s: Seq<u8>, at: int, d: Seq<u8>, off: int)
    requires
        0 <= off,
        off + 2 <= s.len(),
        off + 2 <= at || at + d.len() <= off,
    ensures
        #[trigger] le16(put(s, at, d), off) == le16(s, off),
{
    reveal(le16);
}

pub broadcast proof fn lemma_le32_same(s: Seq<u8>, off: int, v: u32)
    requires
        0 <= off,
        off + 4 <= s.len(),
    ensures
        #[trigger] le32(put(s, off, le32_bytes(v)), off) == v,
{
    law_codec_round_trip(s, off, 0, v);
}

pub broadcast proof fn lemma_le32_len(v: u32)
    ensures
        #[trigger] le32_bytes(v).len() == 4,
{
    reveal(le32_bytes);
}

pub broadcast proof fn lemma_le32_frame(s: Seq<u8>, at: int, d: Seq<u8>, off: int)
    requires
        0 <= off,
        off + 4 <= s.len(),
        off + 4 <= at || at + d.len() <= off,
    ensures
        #[trigger] le32(put(s, at, d), off) == le32(s, off),
{
    reveal(le32);
}

pub broadcast proof fn lemma_be16_same(s: Seq<u8>, off: int, v: u16)
    requires
        0 <= off,
        off + 2 <= s.len(),
    ensures
        #[trigger] be16(put(s, off, be16_bytes(v)), off) == v,
{
    law_codec_round_trip(s, off, v, 0);
}

pub broadcast proof fn lemma_be16_len(v: u16)
    ensures
        #[trigger] be16_bytes(v).len() == 2,
{
    reveal(be16_bytes);
}

pub broadcast proof fn lemma_be16_frame(s: Seq<u8>, at: int, d: Seq<u8>, off: int)
    requires
        0 <= off,
        off + 2 <= s.len(),
        off + 2 <= at || at + d.len() <= off,
    ensures
        #[trigger] be16(put(s, at, d), off) == be16(s, off),
{
    reveal(be16);
}

pub broadcast proof fn lemma_be32_same(s: Seq<u8>, off: int, v: u32)
    requires
        0 <= off,
        off + 4 <= s.len(),
    ensures
        #[trigger] be32(put(s, off, be32_bytes(v)), off) == v,
{
    law_codec_round_trip(s, off, 0, v);
}

pub broadcast proof fn lemma_be32_len(v: u32)
    ensures
        #[trigger] be32_bytes(v).len() == 4,
{
    reveal(be32_bytes);
}

pub broadcast proof fn lemma_be32_frame(s: Seq<u8>, at: int, d: Seq<u8>, off: int)
    requires
        0 <= off,
        off + 4 <= s.len(),
        off + 4 <= at || at + d.len() <= off,
    ensures
        #[trigger] be32(put(s, at, d), off) == be32(s, off),
{
    reveal(be32);
}

/// Inside a stretch that was overwritten, what was written is read.
pub proof fn lemma_le16_inside(s: Seq<u8>, at: int, d: Seq<u8>, off: int)
    requires
        0 <= at <= off,
        off + 2 <= at + d.len() <= s.len(),
    ensures
        le16(put(s, at, d), off) == le16(d, off - at),
{
    reveal(le16);
}

/// A value inside a part is the value in the whole.
pub proof fn lemma_le16_part(s: Seq<u8>, lo: int, hi: int, off: int)
    requires
        0 <= lo,
        0 <= off,
        lo + off + 2 <= hi <= s.len(),
    ensures
        le16(s.subrange(lo, hi), off) == le16(s, lo + off),
{
    reveal(le16);
}

/// Inside a stretch that was overwritten, what was written is read.
pub proof fn lemma_le32_inside(s: Seq<u8>, at: int, d: Seq<u8>, off: int)
    requires
        0 <= at <= off,
        off + 4 <= at + d.len() <= s.len(),
    ensures
        le32(put(s, at, d), off) == le32(d, off - at),
{
    reveal(le32);
}

/// A value inside a part is the value in the whole.
pub proof fn lemma_le32_part(s: Seq<u8>, lo: int, hi: int, off: int)
    requires
        0 <= lo,
        0 <= off,
        lo + off + 4 <= hi <= s.len(),
    ensures
        le32(s.subrange(lo, hi), off) == le32(s, lo + off),
{
    reveal(le32);
}

/// A value inside a part is the value in the whole.
pub proof fn lemma_be32_part(s: Seq<u8>, lo: int, hi: int, off: int)
    requires
        0 <= lo,
        0 <= off,
        lo + off + 4 <= hi <= s.len(),
    ensures
        be32(s.subrange(lo, hi), off) == be32(s, lo + off),
{
    reveal(be32);
}

pub broadcast proof fn lemma_put_len(s: Seq<u8>, off: int, d: Seq<u8>)
    ensures
        #[trigger] put(s, off, d).len() == s.len(),
{
}

pub broadcast group group_codec {
    lemma_put_len,
    lemma_le16_same,
    lemma_le16_len,
    lemma_le16_frame,
    lemma_le32_same,
    lemma_le32_len,
    lemma_le32_frame,
    lemma_be16_same,
    lemma_be16_len,
    lemma_be16_frame,
    lemma_be32_same,
    lemma_be32_len,
    lemma_be32_frame,
}

pub fn get_u16_le(s: &[u8], off: usize) -> (r: u16)
    requires
        off + 2 <= s.len(),
    ensures
        r == le16(s@, off as int),
{
    proof {
        reveal(le16);
    }
    s[off] as u16 + 256 * (s[off + 1] as u16)
}

pub fn get_u32_le(s: &[u8], off: usize) -> (r: u32)
    requires
        off + 4 <= s.len(),
    ensures
        r == le32(s@, off as int),
{
    proof {
        reveal(le32);
    }
    s[off] as u32 + 256 * (s[off + 1] as u32) + 65536 * (s[off + 2] as u32) + 16777216 * (s[off
        + 3] as u32)
}

pub fn get_u16_be(s: &[u8], off: usize) -> (r: u16)
    requires
        off + 2 <= s.len(),
    ensures
        r == be16(s@, off as int),
{
    proof {
        reveal(be16);
    }
    s[off + 1] as u16 + 256 * (s[off] as u16)
}

pub fn get_u32_be(s: &[u8], off: usize) -> (r: u32)
    requires
        off + 4 <= s.len(),
    ensures
        r == be32(s@, off as int),
{
    proof {
        reveal(be32);
    }
    s[off + 3] as u32 + 256 * (s[off + 2] as u32) + 65536 * (s[off + 1] as u32) + 16777216 * (
    s[off] as u32)
}

/// Overwrite the bytes of `buf` from `off` on with `src`.
pub fn put_slice(buf: &mut [u8], off: usize, src: &[u8])
    requires
        off + src@.len() <= old(buf).len(),
    ensures
        final(buf)@ == put(old(buf)@, off as int, src@),
{
    let mut i: usize = 0;
    while i < src.len()
        invariant
            i <= src@.len(),
            off + src@.len() <= buf.len(),
            buf@.len() == old(buf)@.len(),
            buf@ =~= put(old(buf)@, off as int, src@.take(i as int)),
        decreases src@.len() - i,
    {
        buf[off + i] = src[i];
        i = i + 1;
    }
    assert(src@.take(src@.len() as int) =~= src@);
}

/// Overwrite the bytes of `buf` from `off` on with `src`.
pub fn put_bytes(buf: &mut Vec<u8>, off: usize, src: &[u8])
    requires
        off + src@.len() <= old(buf).len(),
    ensures
        final(buf)@ == put(old(buf)@, off as int, src@),
{
    let mut i: usize = 0;
    while i < src.len()
        invariant
            i <= src@.len(),
            off + src@.len() <= buf.len(),
            buf@.len() == old(buf)@.len(),
            buf@ =~= put(old(buf)@, off as int, src@.take(i as int)),
        decreases src@.len() - i,
    {
        buf[off + i] = src[i];
        i = i + 1;
    }
    assert(src@.take(src@.len() as int) =~= src@);
}

pub fn put_u16_le(buf: &mut Vec<u8>, off: usize, v: u16)
    requires
        off + 2 <= old(buf).len(),
    ensures
        final(buf)@ == put(old(buf)@, off as int, le16_bytes(v)),
{
    proof {
        reveal(le16_bytes);
    }
    buf[off] = (v % 256) as u8;
    buf[off + 1] = (v / 256) as u8;
    assert(buf@ =~= put(old(buf)@, off as int, le16_bytes(v)));
}

pub fn put_u32_le(buf: &mut Vec<u8>, off: usize, v: u32)
    requires
        off + 4 <= old(buf).len(),
    ensures
        final(buf)@ == put(old(buf)@, off as int, le32_bytes(v)),
{
    proof {
        reveal(le32_bytes);
    }
    buf[off] = (v % 256) as u8;
    buf[off + 1] = (v / 256 % 256) as u8;
    buf[off + 2] = (v / 65536 % 256) as u8;
    buf[off + 3] = (v / 16777216) as u8;
    assert(buf@ =~= put(old(buf)@, off as int, le32_bytes(v)));
}

pub fn put_u16_be(buf: &mut Vec<u8>, off: usize, v: u16)
    requires
        off + 2 <= old(buf).len(),
    ensures
        final(buf)@ == put(old(buf)@, off as int, be16_bytes(v)),
{
    proof {
        reveal(be16_bytes);
    }
    buf[off] = (v / 256) as u8;
    buf[off + 1] = (v % 256) as u8;
    assert(buf@ =~= put(old(buf)@, off as int, be16_bytes(v)));
}

pub fn put_u32_be(buf: &mut Vec<u8>, off: usize, v: u32)
    requires
        off + 4 <= old(buf).len(),
    ensures
        final(buf)@ == put(old(buf)@, off as int, be32_bytes(v)),
{
    proof {
        reveal(be32_bytes);
    }
    buf[off] = (v / 16777216) as u8;
    buf[off + 1] = (v / 65536 % 256) as u8;
    buf[off + 2] = (v / 256 % 256) as u8;
    buf[off + 3] = (v % 256) as u8;
    assert(buf@ =~= put(old(buf)@, off as int, be32_bytes(v)));
}

/// A buffer of `n` zero bytes.
pub fn zero_vec(n: usize) -> (v: Vec<u8>)
    ensures
        v@ == zeros(n as int),
{
    let v: Vec<u8> = vec![0u8; n];
    assert(v@ =~= zeros(n as int));
    v
}

/// A copy of the bytes `lo..hi` of `s`.
pub fn copy_range(s: &[u8], lo: usize, hi: usize) -> (v: Vec<u8>)
    requires
        lo <= hi <= s.len(),
    ensures
        v@ == s@.subrange(lo as int, hi as int),
{
    vstd::slice::slice_to_vec(vstd::slice::slice_subrange(s, lo, hi))
}

/// The 16 bytes of `s` from `off` on.
pub fn copy16(s: &[u8], off: usize) -> (a: [u8; 16])
    requires
        off + 16 <= s.len(),
    ensures
        a@ == s@.subrange(off as int, off + 16),
{
    let mut a: [u8; 16] = [0u8;16];
    let mut i: usize = 0;
    while i < 16
        invariant
            i <= 16,
            off + 16 <= s.len(),
            forall|j: int| 0 <= j < i ==> a@[j] == s@[off + j],
        decreases 16 - i,
    {
        a[i] = s[off + i];
        i = i + 1;
    }
    assert(a@ =~= s@.subrange(off as int, off + 16));
    a
}

/// The 60 bytes of `s` from `off` on.
pub fn copy60(s: &[u8], off: usize) -> (a: [u8; 60])
    requires
        off + 60 <= s.len(),
    ensures
        a@ == s@.subrange(off as int, off + 60),
{
    let mut a: [u8; 60] = [0u8;60];
    let mut i: usize = 0;
    while i < 60
        invariant
            i <= 60,
            off + 60 <= s.len(),
            forall|j: int| 0 <= j < i ==> a@[j] == s@[off + j],
        decreases 60 - i,
    {
        a[i] = s[off + i];
        i = i + 1;
    }
    assert(a@ =~= s@.subrange(off as int, off + 60));
    a
}

/// Whether two byte strings are the same.
pub fn same_bytes(a: &[u8], b: &[u8]) -> (r: bool)
    ensures
        r == (a@ == b@),
{
    if a.len() != b.len() {
        return false;
    }
    let mut i: usize = 0;
    while i < a.len()
        invariant
            i <= a@.len(),
            a@.len() == b@.len(),
            forall|j: int| 0 <= j < i ==> a@[j] == b@[j],
        decreases a@.len() - i,
    {
        if a[i] != b[i] {
            return false;
        }
        i = i + 1;
    }
    assert(a@ =~= b@);
    true
}

/// `n`, or the largest 64-bit number where `n` is over it.
pub open spec fn sat64(n: int) -> u64 {
    if n > u64::MAX {
        u64::MAX
    } else {
        n as u64
    }
}

/// `n / d`, rounded up.
pub open spec fn ceil_div(n: int, d: int) -> int {
    if n % d == 0 {
        n / d
    } else {
        n / d + 1
    }
}

pub fn div_ceil(n: u64, d: u64) -> (r: u64)
    requires
        d > 0,
    ensures
        r == ceil_div(n as int, d as int),
        d > 1 || n < u64::MAX ==> r <= n,
{
    let q: u64 = n / d;
    proof {
        vstd::arithmetic::div_mod::lemma_fundamental_div_mod(n as int, d as int);
        assert(n % d != 0 ==> n / d < n && n / d < u64::MAX) by (nonlinear_arith)
            requires
                d > 0,
                n >= 0,
                n <= u64::MAX,
        ;
    }
    if n % d == 0 {
        assert(n / d <= n) by (nonlinear_arith)
            requires
                d > 0,
                n >= 0,
        ;
        q
    } else {
        q + 1
    }
}

} // verus!
