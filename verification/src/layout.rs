//! How numbers are laid out in shared memory: little-endian, four or eight bytes.
use vstd::prelude::*;

verus! {

/// The four bytes of `v`, least significant first.
#[verifier::opaque]
pub open spec fn u32_le(v: u32) -> Seq<u8> {
    seq![(v % 256) as u8, ((v / 256) % 256) as u8, ((v / 65536) % 256) as u8, ((v / 16777216) % 256) as u8]
}

/// The number the four bytes at `off` hold, least significant first.
pub open spec fn u32_at(b: Seq<u8>, off: int) -> int {
    b[off] + 256 * b[off + 1] + 65536 * b[off + 2] + 16777216 * b[off + 3]
}

/// The eight bytes of `v`, least significant first.
pub open spec fn u64_le(v: u64) -> Seq<u8> {
    u32_le((v % 0x1_0000_0000) as u32) + u32_le((v / 0x1_0000_0000) as u32)
}

/// The number the eight bytes at `off` hold, least significant first.
pub open spec fn u64_at(b: Seq<u8>, off: int) -> int {
    u32_at(b, off) + 0x1_0000_0000 * u32_at(b, off + 4)
}

/// Lemma: a number takes four bytes.
pub proof fn lemma_u32_len(v: u32)
    ensures
        u32_le(v).len() == 4,
{
    reveal(u32_le);
}

/// Lemma: a number takes eight bytes.
pub proof fn lemma_u64_len(v: u64)
    ensures
        u64_le(v).len() == 8,
{
    reveal(u32_le);
}

/// Lemma: four bytes written hold the number written.
pub proof fn lemma_u32_round_trip(v: u32)
    ensures
        u32_le(v).len() == 4,
        u32_at(u32_le(v), 0) == v,
{
    reveal(u32_le);
    assert((v % 256) + 256 * ((v / 256) % 256) + 65536 * ((v / 65536) % 256) + 16777216 * ((v
        / 16777216) % 256) == v) by (bit_vector);
}

/// Lemma: the bytes of a number read back, wherever they stand.
pub proof fn lemma_u32_in(b: Seq<u8>, off: int, v: u32)
    requires
        0 <= off,
        off + 4 <= b.len(),
        b.subrange(off, off + 4) == u32_le(v),
    ensures
        u32_at(b, off) == v,
{
    lemma_u32_round_trip(v);
    reveal(u32_le);
    assert(b[off] == u32_le(v)[0]);
    assert(b[off + 1] == u32_le(v)[1]);
    assert(b[off + 2] == u32_le(v)[2]);
    assert(b[off + 3] == u32_le(v)[3]);
}

/// Lemma: eight bytes written hold the number written, wherever they stand.
pub proof fn lemma_u64_in(b: Seq<u8>, off: int, v: u64)
    requires
        0 <= off,
        off + 8 <= b.len(),
        b.subrange(off, off + 8) == u64_le(v),
    ensures
        u64_at(b, off) == v,
{
    let lo = (v % 0x1_0000_0000) as u32;
    let hi = (v / 0x1_0000_0000) as u32;
    lemma_u32_len(lo);
    lemma_u32_len(hi);
    assert(b.subrange(off, off + 4) =~= u32_le(lo)) by {
        assert(b.subrange(off, off + 8).subrange(0, 4) =~= b.subrange(off, off + 4));
    }
    assert(b.subrange(off + 4, off + 8) =~= u32_le(hi)) by {
        assert(b.subrange(off, off + 8).subrange(4, 8) =~= b.subrange(off + 4, off + 8));
    }
    lemma_u32_in(b, off, lo);
    lemma_u32_in(b, off + 4, hi);
    assert(lo + 0x1_0000_0000 * hi == v) by (bit_vector)
        requires
            lo == (v % 0x1_0000_0000) as u32,
            hi == (v / 0x1_0000_0000) as u32,
    ;
}

/// Appends the four bytes of `v`.
pub fn push_u32(buf: &mut Vec<u8>, v: u32)
    ensures
        final(buf)@ == old(buf)@ + u32_le(v),
{
    buf.push((v % 256) as u8);
    buf.push(((v / 256) % 256) as u8);
    buf.push(((v / 65536) % 256) as u8);
    buf.push(((v / 16777216) % 256) as u8);
    reveal(u32_le);
    assert(buf@ =~= old(buf)@ + u32_le(v));
}

/// Appends the eight bytes of `v`.
pub fn push_u64(buf: &mut Vec<u8>, v: u64)
    ensures
        final(buf)@ == old(buf)@ + u64_le(v),
{
    push_u32(buf, (v % 0x1_0000_0000) as u32);
    push_u32(buf, (v / 0x1_0000_0000) as u32);
    reveal(u32_le);
    assert(buf@ =~= old(buf)@ + u64_le(v));
}

/// Appends bytes.
pub fn push_bytes(buf: &mut Vec<u8>, bytes: &[u8])
    ensures
        final(buf)@ == old(buf)@ + bytes@,
{
    let mut i: usize = 0;
    while i < bytes.len()
        invariant
            i <= bytes@.len(),
            buf@ == old(buf)@ + bytes@.subrange(0, i as int),
        decreases bytes@.len() - i,
    {
        buf.push(bytes[i]);
        i = i + 1;
        assert(buf@ =~= old(buf)@ + bytes@.subrange(0, i as int));
    }
    assert(bytes@.subrange(0, i as int) =~= bytes@);
}

/// The number the four bytes at `off` hold.
pub fn read_u32(b: &[u8], off: usize) -> (r: u32)
    requires
        off + 4 <= b@.len(),
    ensures
        r == u32_at(b@, off as int),
{
    b[off] as u32 + (b[off + 1] as u32) * 256 + (b[off + 2] as u32) * 65536 + (b[off + 3] as u32)
        * 16777216
}

/// The number the eight bytes at `off` hold.
pub fn read_u64(b: &[u8], off: usize) -> (r: u64)
    requires
        off + 8 <= b@.len(),
    ensures
        r == u64_at(b@, off as int),
{
    let len = b.len();
    assert(off + 8 <= len);
    let lo = read_u32(b, off) as u64;
    let hi = read_u32(b, off + 4) as u64;
    lo + hi * 0x1_0000_0000
}

/// The bytes `b[from..to]`.
pub fn copy_range(b: &[u8], from: usize, to: usize) -> (r: Vec<u8>)
    requires
        from <= to <= b@.len(),
    ensures
        r@ == b@.subrange(from as int, to as int),
{
    let mut r: Vec<u8> = Vec::new();
    let mut i = from;
    while i < to
        invariant
            from <= i <= to <= b@.len(),
            r@ == b@.subrange(from as int, i as int),
        decreases to - i,
    {
        r.push(b[i]);
        i = i + 1;
        assert(r@ =~= b@.subrange(from as int, i as int));
    }
    r
}

/// The name of the shared memory object for `name`: the name itself where it starts
/// with `/`, else `/` followed by the name.
pub open spec fn shm_object(name: Seq<char>) -> Seq<char> {
    if name.len() > 0 && name[0] == '/' {
        name
    } else {
        seq!['/'] + name
    }
}

/// The name under which the shared memory object for `name` is opened.
pub fn shm_object_name(name: &str) -> (r: String)
    ensures
        r@ == shm_object(name@),
{
    let cs = crate::text::chars_of(name);
    if cs.len() > 0 && cs[0] == '/' {
        return crate::text::owned(name);
    }
    let mut out: Vec<char> = Vec::new();
    out.push('/');
    let mut i: usize = 0;
    while i < cs.len()
        invariant
            i <= cs@.len(),
            cs@ == name@,
            out@ == seq!['/'] + cs@.subrange(0, i as int),
        decreases cs@.len() - i,
    {
        out.push(cs[i]);
        i = i + 1;
        assert(out@ =~= seq!['/'] + cs@.subrange(0, i as int));
    }
    assert(cs@.subrange(0, cs@.len() as int) =~= cs@);
    crate::text::string_of(&out)
}

} // verus!
