//! Byte strings: comparison, copying, and little-endian integers.
use vstd::prelude::*;

verus! {

/// Whether two byte strings are equal.
pub fn bytes_eq(a: &[u8], b: &[u8]) -> (r: bool)
    ensures
        r == (a@ == b@),
{
    if a.len() != b.len() {
        return false;
    }
    let mut i: usize = 0;
    while i < a.len()
        invariant
            a@.len() == b@.len(),
            i <= a@.len(),
            a@.subrange(0, i as int) == b@.subrange(0, i as int),
        decreases a@.len() - i,
    {
        if a[i] != b[i] {
            assert(a@[i as int] != b@[i as int]);
            return false;
        }
        assert(a@.subrange(0, i + 1) =~= a@.subrange(0, i as int).push(a@[i as int]));
        assert(b@.subrange(0, i + 1) =~= b@.subrange(0, i as int).push(b@[i as int]));
        i = i + 1;
    }
    assert(a@ =~= a@.subrange(0, i as int));
    assert(b@ =~= b@.subrange(0, i as int));
    true
}

/// A copy of a byte vector.
pub fn copy_bytes(v: &Vec<u8>) -> (r: Vec<u8>)
    ensures
        r@ == v@,
{
    let r = v.clone();
    assert(r@ =~= v@);
    r
}

/// Whether `p` ends with `s`.
pub fn ends_with(p: &[u8], s: &[u8]) -> (r: bool)
    ensures
        r == (s@.len() <= p@.len() && p@.subrange(p@.len() - s@.len(), p@.len() as int) == s@),
{
    if s.len() > p.len() {
        return false;
    }
    let off = p.len() - s.len();
    let ghost tail = p@.subrange(off as int, p@.len() as int);
    let mut i: usize = 0;
    while i < s.len()
        invariant
            off + s@.len() == p@.len(),
            s@.len() == s.len(),
            p@.len() == p.len(),
            p@.len() <= usize::MAX,
            tail == p@.subrange(off as int, p@.len() as int),
            i <= s@.len(),
            forall|j: int| 0 <= j < i ==> tail[j] == s@[j],
        decreases s@.len() - i,
    {
        if p[off + i] != s[i] {
            assert(tail[i as int] != s@[i as int]);
            return false;
        }
        i = i + 1;
    }
    assert(tail =~= s@);
    true
}

/// Appends `b[from..to]` to `out`.
pub fn push_range(out: &mut Vec<u8>, b: &[u8], from: usize, to: usize)
    requires
        from <= to <= b@.len(),
    ensures
        final(out)@ == old(out)@ + b@.subrange(from as int, to as int),
{
    let mut i: usize = from;
    while i < to
        invariant
            from <= i <= to <= b@.len(),
            out@ == old(out)@ + b@.subrange(from as int, i as int),
        decreases to - i,
    {
        out.push(b[i]);
        assert(b@.subrange(from as int, i + 1) =~= b@.subrange(from as int, i as int).push(b@[i as int]));
        i = i + 1;
    }
}

/// A new vector holding `b[from..to]`.
pub fn range_to_vec(b: &[u8], from: usize, to: usize) -> (r: Vec<u8>)
    requires
        from <= to <= b@.len(),
    ensures
        r@ == b@.subrange(from as int, to as int),
{
    let mut r: Vec<u8> = Vec::new();
    push_range(&mut r, b, from, to);
    assert(r@ =~= b@.subrange(from as int, to as int));
    r
}


/// The 16-bit little-endian integer stored at `pos`.
pub open spec fn le_u16(b: Seq<u8>, pos: int) -> int {
    b[pos] + 256 * b[pos + 1]
}

/// The 32-bit little-endian integer stored at `pos`.
pub open spec fn le_u32(b: Seq<u8>, pos: int) -> int {
    b[pos] + 256 * b[pos + 1] + 65536 * b[pos + 2] + 16777216 * b[pos + 3]
}

/// The two bytes that store `x` little-endian.
pub open spec fn u16_bytes(x: u16) -> Seq<u8> {
    seq![(x % 256) as u8, (x / 256) as u8]
}

/// The four bytes that store `x` little-endian.
pub open spec fn u32_bytes(x: u32) -> Seq<u8> {
    seq![(x % 256) as u8, ((x / 256) % 256) as u8, ((x / 65536) % 256) as u8, (x / 16777216) as u8]
}

pub fn read_u16(b: &[u8], pos: usize) -> (r: u16)
    requires
        pos + 2 <= b@.len(),
    ensures
        r == le_u16(b@, pos as int),
{
    let lo = b[pos] as u16;
    let hi = b[pos + 1] as u16;
    lo + 256 * hi
}

pub fn read_u32(b: &[u8], pos: usize) -> (r: u32)
    requires
        pos + 4 <= b@.len(),
    ensures
        r == le_u32(b@, pos as int),
{
    let b0 = b[pos] as u32;
    let b1 = b[pos + 1] as u32;
    let b2 = b[pos + 2] as u32;
    let b3 = b[pos + 3] as u32;
    b0 + 256 * b1 + 65536 * b2 + 16777216 * b3
}

pub fn push_u16(out: &mut Vec<u8>, x: u16)
    ensures
        final(out)@ == old(out)@ + u16_bytes(x),
{
    out.push((x % 256) as u8);
    out.push((x / 256) as u8);
    assert(final(out)@ =~= old(out)@ + u16_bytes(x));
}

pub fn push_u32(out: &mut Vec<u8>, x: u32)
    ensures
        final(out)@ == old(out)@ + u32_bytes(x),
{
    out.push((x % 256) as u8);
    out.push(((x / 256) % 256) as u8);
    out.push(((x / 65536) % 256) as u8);
    out.push((x / 16777216) as u8);
    assert(final(out)@ =~= old(out)@ + u32_bytes(x));
}

/// Reading back the bytes of a 16-bit integer gives the integer.
pub proof fn lemma_u16_round_trip(x: u16)
    ensures
        le_u16(u16_bytes(x), 0) == x,
{
    let b = u16_bytes(x);
    assert(b[0] == x % 256);
    assert(b[1] == x / 256);
    assert(x == x % 256 + 256 * (x / 256)) by (nonlinear_arith);
}

/// Reading back the bytes of a 32-bit integer gives the integer.
pub proof fn lemma_u32_round_trip(x: u32)
    ensures
        le_u32(u32_bytes(x), 0) == x,
{
    let b = u32_bytes(x);
    let q1 = x / 256;
    let q2 = x / 65536;
    let q3 = x / 16777216;
    assert(b[0] == x % 256);
    assert(b[1] == q1 % 256);
    assert(b[2] == q2 % 256);
    assert(b[3] == q3);
    assert(x == x % 256 + 256 * q1) by (nonlinear_arith)
        requires q1 == x / 256;
    assert(q1 == q1 % 256 + 256 * q2) by (nonlinear_arith)
        requires q1 == x / 256, q2 == x / 65536;
    assert(q2 == q2 % 256 + 256 * q3) by (nonlinear_arith)
        requires q2 == x / 65536, q3 == x / 16777216;
}

} // verus!
