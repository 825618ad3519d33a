//! Little-endian integer encoding and the reading of fixed-size fields.
use vstd::prelude::*;

verus! {

/// The 4-byte little-endian encoding of `v`.
pub open spec fn le32(v: u32) -> Seq<u8> {
    seq![
        (v & 0xff) as u8,
        ((v >> 8u32) & 0xff) as u8,
        ((v >> 16u32) & 0xff) as u8,
        ((v >> 24u32) & 0xff) as u8,
    ]
}

/// The 8-byte little-endian encoding of `v`.
pub open spec fn le64(v: u64) -> Seq<u8> {
    seq![
        (v & 0xff) as u8,
        ((v >> 8u64) & 0xff) as u8,
        ((v >> 16u64) & 0xff) as u8,
        ((v >> 24u64) & 0xff) as u8,
        ((v >> 32u64) & 0xff) as u8,
        ((v >> 40u64) & 0xff) as u8,
        ((v >> 48u64) & 0xff) as u8,
        ((v >> 56u64) & 0xff) as u8,
    ]
}

/// The value of 4 bytes read little-endian.
pub open spec fn from_le32(b: Seq<u8>) -> u32 {
    (b[0] as u32) | ((b[1] as u32) << 8u32) | ((b[2] as u32) << 16u32) | ((b[3] as u32) << 24u32)
}

/// The value of 8 bytes read little-endian.
pub open spec fn from_le64(b: Seq<u8>) -> u64 {
    (b[0] as u64) | ((b[1] as u64) << 8u64) | ((b[2] as u64) << 16u64) | ((b[3] as u64) << 24u64)
        | ((b[4] as u64) << 32u64) | ((b[5] as u64) << 40u64) | ((b[6] as u64) << 48u64) | ((
    b[7] as u64) << 56u64)
}

pub proof fn lemma_le32_round_trip(v: u32)
    ensures
        from_le32(le32(v)) == v,
        le32(v).len() == 4,
{
    let b = le32(v);
    let (b0, b1, b2, b3) = (b[0], b[1], b[2], b[3]);
    assert(b0 == (v & 0xff) as u8 && b1 == ((v >> 8u32) & 0xff) as u8 && b2 == ((v >> 16u32)
        & 0xff) as u8 && b3 == ((v >> 24u32) & 0xff) as u8);
    assert((b0 as u32) | ((b1 as u32) << 8u32) | ((b2 as u32) << 16u32) | ((b3 as u32) << 24u32)
        == v) by (bit_vector)
        requires
            b0 == (v & 0xff) as u8,
            b1 == ((v >> 8u32) & 0xff) as u8,
            b2 == ((v >> 16u32) & 0xff) as u8,
            b3 == ((v >> 24u32) & 0xff) as u8,
    ;
}

pub proof fn lemma_le64_round_trip(v: u64)
    ensures
        from_le64(le64(v)) == v,
        le64(v).len() == 8,
{
    let b = le64(v);
    let (b0, b1, b2, b3, b4, b5, b6, b7) = (b[0], b[1], b[2], b[3], b[4], b[5], b[6], b[7]);
    assert((b0 as u64) | ((b1 as u64) << 8u64) | ((b2 as u64) << 16u64) | ((b3 as u64) << 24u64)
        | ((b4 as u64) << 32u64) | ((b5 as u64) << 40u64) | ((b6 as u64) << 48u64) | ((
    b7 as u64) << 56u64) == v) by (bit_vector)
        requires
            b0 == (v & 0xff) as u8,
            b1 == ((v >> 8u64) & 0xff) as u8,
            b2 == ((v >> 16u64) & 0xff) as u8,
            b3 == ((v >> 24u64) & 0xff) as u8,
            b4 == ((v >> 32u64) & 0xff) as u8,
            b5 == ((v >> 40u64) & 0xff) as u8,
            b6 == ((v >> 48u64) & 0xff) as u8,
            b7 == ((v >> 56u64) & 0xff) as u8,
    ;
}

/// Appends the little-endian encoding of `v`.
pub fn push_u32(out: &mut Vec<u8>, v: u32)
    ensures
        final(out)@ == old(out)@ + le32(v),
{
    out.push((v & 0xff) as u8);
    out.push(((v >> 8u32) & 0xff) as u8);
    out.push(((v >> 16u32) & 0xff) as u8);
    out.push(((v >> 24u32) & 0xff) as u8);
    assert(final(out)@ =~= old(out)@ + le32(v));
}

/// Appends the little-endian encoding of `v`.
pub fn push_u64(out: &mut Vec<u8>, v: u64)
    ensures
        final(out)@ == old(out)@ + le64(v),
{
    out.push((v & 0xff) as u8);
    out.push(((v >> 8u64) & 0xff) as u8);
    out.push(((v >> 16u64) & 0xff) as u8);
    out.push(((v >> 24u64) & 0xff) as u8);
    out.push(((v >> 32u64) & 0xff) as u8);
    out.push(((v >> 40u64) & 0xff) as u8);
    out.push(((v >> 48u64) & 0xff) as u8);
    out.push(((v >> 56u64) & 0xff) as u8);
    assert(final(out)@ =~= old(out)@ + le64(v));
}

/// Appends all of `src`.
pub fn push_bytes(out: &mut Vec<u8>, src: &[u8])
    ensures
        final(out)@ == old(out)@ + src@,
{
    let mut i: usize = 0;
    while i < src.len()
        invariant
            i <= src@.len(),
            out@ == old(out)@ + src@.subrange(0, i as int),
        decreases src@.len() - i,
    {
        out.push(src[i]);
        i = i + 1;
        assert(out@ =~= old(out)@ + src@.subrange(0, i as int));
    }
    assert(src@.subrange(0, i as int) =~= src@);
}

/// The little-endian `u32` at `pos`, and the position after it.
pub open spec fn spec_read_u32(b: Seq<u8>, pos: int) -> Option<(u32, int)> {
    if 0 <= pos && pos + 4 <= b.len() {
        Some((from_le32(b.subrange(pos, pos + 4)), pos + 4))
    } else {
        None
    }
}

/// The little-endian `u64` at `pos`, and the position after it.
pub open spec fn spec_read_u64(b: Seq<u8>, pos: int) -> Option<(u64, int)> {
    if 0 <= pos && pos + 8 <= b.len() {
        Some((from_le64(b.subrange(pos, pos + 8)), pos + 8))
    } else {
        None
    }
}

/// The `n` bytes at `pos`, and the position after them.
pub open spec fn spec_read_bytes(b: Seq<u8>, pos: int, n: int) -> Option<(Seq<u8>, int)> {
    if 0 <= pos && 0 <= n && pos + n <= b.len() {
        Some((b.subrange(pos, pos + n), pos + n))
    } else {
        None
    }
}

pub fn read_u32(b: &[u8], pos: usize) -> (r: Option<(u32, usize)>)
    ensures
        r matches Some((v, p)) ==> spec_read_u32(b@, pos as int) == Some((v, p as int)),
        r is None ==> spec_read_u32(b@, pos as int) is None,
{
    if pos > b.len() || b.len() - pos < 4 {
        return None;
    }
    let v: u32 = (b[pos] as u32) | ((b[pos + 1] as u32) << 8u32) | ((b[pos + 2] as u32) << 16u32)
        | ((b[pos + 3] as u32) << 24u32);
    let ghost s = b@.subrange(pos as int, pos + 4);
    assert(s[0] == b[pos as int] && s[1] == b[pos + 1] && s[2] == b[pos + 2] && s[3] == b[pos + 3]);
    Some((v, pos + 4))
}

pub fn read_u64(b: &[u8], pos: usize) -> (r: Option<(u64, usize)>)
    ensures
        r matches Some((v, p)) ==> spec_read_u64(b@, pos as int) == Some((v, p as int)),
        r is None ==> spec_read_u64(b@, pos as int) is None,
{
    if pos > b.len() || b.len() - pos < 8 {
        return None;
    }
    let v: u64 = (b[pos] as u64) | ((b[pos + 1] as u64) << 8u64) | ((b[pos + 2] as u64) << 16u64)
        | ((b[pos + 3] as u64) << 24u64) | ((b[pos + 4] as u64) << 32u64) | ((b[pos + 5] as u64)
        << 40u64) | ((b[pos + 6] as u64) << 48u64) | ((b[pos + 7] as u64) << 56u64);
    let ghost s = b@.subrange(pos as int, pos + 8);
    assert(s[0] == b[pos as int] && s[1] == b[pos + 1] && s[2] == b[pos + 2] && s[3] == b[pos + 3]);
    assert(s[4] == b[pos + 4] && s[5] == b[pos + 5] && s[6] == b[pos + 6] && s[7] == b[pos + 7]);
    Some((v, pos + 8))
}

pub fn read_bytes(b: &[u8], pos: usize, n: usize) -> (r: Option<(Vec<u8>, usize)>)
    ensures
        r matches Some((v, p)) ==> spec_read_bytes(b@, pos as int, n as int) == Some((v@, p as int)),
        r is None ==> spec_read_bytes(b@, pos as int, n as int) is None,
{
    if pos > b.len() || b.len() - pos < n {
        return None;
    }
    let mut v: Vec<u8> = Vec::new();
    let mut i: usize = 0;
    while i < n
        invariant
            i <= n,
            pos + n <= b@.len(),
            pos + n <= usize::MAX,
            v@ == b@.subrange(pos as int, pos + i),
        decreases n - i,
    {
        v.push(b[pos + i]);
        i = i + 1;
        assert(v@ =~= b@.subrange(pos as int, pos + i));
    }
    Some((v, pos + n))
}

/// Reads 32 bytes at `pos` into an array.
pub fn read_hash(b: &[u8], pos: usize) -> (r: Option<([u8; 32], usize)>)
    ensures
        r matches Some((v, p)) ==> spec_read_bytes(b@, pos as int, 32) == Some((v@, p as int)),
        r is None ==> spec_read_bytes(b@, pos as int, 32) is None,
{
    if pos > b.len() || b.len() - pos < 32 {
        return None;
    }
    let mut v: [u8; 32] = [0u8; 32];
    let mut i: usize = 0;
    while i < 32
        invariant
            i <= 32,
            pos + 32 <= b@.len(),
            pos + 32 <= usize::MAX,
            v@.len() == 32,
            forall|j: int| 0 <= j < i ==> v@[j] == b@[pos + j],
        decreases 32 - i,
    {
        v[i] = b[pos + i];
        i = i + 1;
    }
    assert(v@ =~= b@.subrange(pos as int, pos + 32));
    Some((v, pos + 32))
}

/// Byte-wise equality of two hashes.
pub fn hash_eq(a: &[u8; 32], b: &[u8; 32]) -> (r: bool)
    ensures
        r == (a@ == b@),
{
    let mut i: usize = 0;
    while i < 32
        invariant
            i <= 32,
            a@.len() == 32,
            b@.len() == 32,
            forall|j: int| 0 <= j < i ==> a@[j] == b@[j],
        decreases 32 - i,
    {
        if a[i] != b[i] {
            return false;
        }
        i = i + 1;
    }
    assert(a@ =~= b@);
    true
}

} // verus!
