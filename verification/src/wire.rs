//! Fixed-endian integer primitives of the wire format: every length prefix is
//! a 4-byte big-endian unsigned integer, and the `from` field an 8-byte one.

use vstd::prelude::*;

verus! {

/// The four big-endian bytes of a 32-bit value.
pub open spec fn u32_be_bytes(n: u32) -> Seq<u8> {
    seq![(n >> 24) as u8, (n >> 16) as u8, (n >> 8) as u8, n as u8]
}

/// The 32-bit value held by four big-endian bytes.
pub open spec fn be32(b: Seq<u8>) -> u32
    recommends
        b.len() == 4,
{
    ((b[0] as u32) << 24) | ((b[1] as u32) << 16) | ((b[2] as u32) << 8) | (b[3] as u32)
}

pub proof fn lemma_u32_be_roundtrip(n: u32)
    ensures
        be32(u32_be_bytes(n)) == n,
{
    assert((((n >> 24) as u8 as u32) << 24) | (((n >> 16) as u8 as u32) << 16)
        | (((n >> 8) as u8 as u32) << 8) | (n as u8 as u32) == n) by (bit_vector);
}

/// The eight big-endian bytes of a 64-bit value.
pub open spec fn u64_be_bytes(n: u64) -> Seq<u8> {
    seq![
        (n >> 56) as u8,
        (n >> 48) as u8,
        (n >> 40) as u8,
        (n >> 32) as u8,
        (n >> 24) as u8,
        (n >> 16) as u8,
        (n >> 8) as u8,
        n as u8,
    ]
}

/// The value accumulated by reading a byte sequence as one big-endian number,
/// most significant byte first; bits beyond the 64th are discarded.
pub open spec fn be_accum(b: Seq<u8>) -> u64
    decreases b.len(),
{
    if b.len() == 0 {
        0u64
    } else {
        (be_accum(b.drop_last()) << 8) | (b.last() as u64)
    }
}

/// The `from` value carried by a field payload: its first eight bytes read
/// big-endian; a shorter payload is read as the low-order bytes of the value.
pub open spec fn from_of(p: Seq<u8>) -> u64 {
    if p.len() <= 8 {
        be_accum(p)
    } else {
        be_accum(p.take(8))
    }
}

pub proof fn lemma_u64_be_roundtrip(n: u64)
    ensures
        from_of(u64_be_bytes(n)) == n,
{
    reveal_with_fuel(be_accum, 10);
    let s = u64_be_bytes(n);
    assert(s.take(8) =~= s);
    assert(s.drop_last() =~= seq![
        (n >> 56) as u8,
        (n >> 48) as u8,
        (n >> 40) as u8,
        (n >> 32) as u8,
        (n >> 24) as u8,
        (n >> 16) as u8,
        (n >> 8) as u8,
    ]);
    assert(s.drop_last().drop_last() =~= seq![
        (n >> 56) as u8,
        (n >> 48) as u8,
        (n >> 40) as u8,
        (n >> 32) as u8,
        (n >> 24) as u8,
        (n >> 16) as u8,
    ]);
    assert(s.drop_last().drop_last().drop_last() =~= seq![
        (n >> 56) as u8,
        (n >> 48) as u8,
        (n >> 40) as u8,
        (n >> 32) as u8,
        (n >> 24) as u8,
    ]);
    assert(s.drop_last().drop_last().drop_last().drop_last() =~= seq![
        (n >> 56) as u8,
        (n >> 48) as u8,
        (n >> 40) as u8,
        (n >> 32) as u8,
    ]);
    assert(s.drop_last().drop_last().drop_last().drop_last().drop_last() =~= seq![
        (n >> 56) as u8,
        (n >> 48) as u8,
        (n >> 40) as u8,
    ]);
    assert(s.drop_last().drop_last().drop_last().drop_last().drop_last().drop_last() =~= seq![
        (n >> 56) as u8,
        (n >> 48) as u8,
    ]);
    assert(s.drop_last().drop_last().drop_last().drop_last().drop_last().drop_last().drop_last()
        =~= seq![(n >> 56) as u8]);
    assert((((((((((((((((0u64 << 8) | ((n >> 56) as u8 as u64)) << 8) | ((n >> 48) as u8 as u64))
        << 8) | ((n >> 40) as u8 as u64)) << 8) | ((n >> 32) as u8 as u64)) << 8) | ((n
        >> 24) as u8 as u64)) << 8) | ((n >> 16) as u8 as u64)) << 8) | ((n >> 8) as u8 as u64))
        << 8) | (n as u8 as u64) == n) by (bit_vector);
}

/// Appends the four big-endian bytes of `n`.
pub fn push_u32_be(out: &mut Vec<u8>, n: u32)
    ensures
        final(out)@ == old(out)@ + u32_be_bytes(n),
{
    out.push(#[verifier::truncate] ((n >> 24) as u8));
    out.push(#[verifier::truncate] ((n >> 16) as u8));
    out.push(#[verifier::truncate] ((n >> 8) as u8));
    out.push(#[verifier::truncate] (n as u8));
    assert(out@ =~= old(out)@ + u32_be_bytes(n));
}

/// Appends the eight big-endian bytes of `n`.
pub fn push_u64_be(out: &mut Vec<u8>, n: u64)
    ensures
        final(out)@ == old(out)@ + u64_be_bytes(n),
{
    out.push(#[verifier::truncate] ((n >> 56) as u8));
    out.push(#[verifier::truncate] ((n >> 48) as u8));
    out.push(#[verifier::truncate] ((n >> 40) as u8));
    out.push(#[verifier::truncate] ((n >> 32) as u8));
    out.push(#[verifier::truncate] ((n >> 24) as u8));
    out.push(#[verifier::truncate] ((n >> 16) as u8));
    out.push(#[verifier::truncate] ((n >> 8) as u8));
    out.push(#[verifier::truncate] (n as u8));
    assert(out@ =~= old(out)@ + u64_be_bytes(n));
}

/// Reads the 4-byte big-endian integer at `off`.
pub fn read_u32_at(data: &Vec<u8>, off: usize) -> (r: u32)
    requires
        off + 4 <= data@.len(),
    ensures
        r == be32(data@.subrange(off as int, off as int + 4)),
{
    let n: usize = data.len();
    assert(off + 4 <= n);
    let r = ((data[off] as u32) << 24) | ((data[off + 1] as u32) << 16) | ((data[off
        + 2] as u32) << 8) | (data[off + 3] as u32);
    proof {
        let s = data@.subrange(off as int, off as int + 4);
        assert(s[0] == data@[off as int] && s[1] == data@[off as int + 1] && s[2] == data@[off
            as int + 2] && s[3] == data@[off as int + 3]);
    }
    r
}

/// Reads a field payload as a big-endian `from` value, as [`from_of`] says.
pub fn parse_from(p: &Vec<u8>) -> (r: u64)
    ensures
        r == from_of(p@),
{
    let n: usize = if p.len() < 8 {
        p.len()
    } else {
        8
    };
    let mut acc: u64 = 0;
    let mut i: usize = 0;
    while i < n
        invariant
            i <= n,
            n <= p@.len(),
            n == if p@.len() <= 8 { p@.len() as int } else { 8int },
            acc == be_accum(p@.take(i as int)),
        decreases n - i,
    {
        proof {
            assert(p@.take(i as int + 1).drop_last() =~= p@.take(i as int));
            assert(p@.take(i as int + 1).last() == p@[i as int]);
        }
        acc = (acc << 8u64) | (p[i] as u64);
        i += 1;
    }
    proof {
        if p@.len() <= 8 {
            assert(p@.take(n as int) =~= p@);
        }
    }
    acc
}

} // verus!
