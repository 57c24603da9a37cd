//! Big-endian byte-order helpers shared by the header codec and the
//! response builder.

use vstd::prelude::*;

verus! {

/// The 16-bit value that two bytes hold in big-endian order.
pub open spec fn u16_of_be(hi: u8, lo: u8) -> u16 {
    (hi * 256 + lo) as u16
}

/// The two bytes that hold a 16-bit value in big-endian order.
pub open spec fn be_bytes_of_u16(x: u16) -> Seq<u8> {
    seq![(x / 256) as u8, (x % 256) as u8]
}

/// The four bytes that hold a 32-bit value in big-endian order.
pub open spec fn be_bytes_of_u32(x: u32) -> Seq<u8> {
    seq![
        (x / 0x1000000) as u8,
        ((x / 0x10000) % 256) as u8,
        ((x / 256) % 256) as u8,
        (x % 256) as u8,
    ]
}

/// Reading two big-endian bytes of a serialized 16-bit value gives the value back.
pub proof fn lemma_u16_be_round_trip(x: u16)
    ensures
        u16_of_be((x / 256) as u8, (x % 256) as u8) == x,
{
    assert(x / 256 * 256 + x % 256 == x) by (nonlinear_arith);
}

/// Combines two bytes, big-endian first, into a 16-bit value.
pub fn u16_from_be(hi: u8, lo: u8) -> (r: u16)
    ensures
        r == u16_of_be(hi, lo),
{
    (hi as u16) * 256 + (lo as u16)
}

/// Appends the two big-endian bytes of a 16-bit value.
pub fn push_u16_be(out: &mut Vec<u8>, x: u16)
    ensures
        final(out)@ == old(out)@ + be_bytes_of_u16(x),
{
    out.push((x / 256) as u8);
    out.push((x % 256) as u8);
    assert(out@ =~= old(out)@ + be_bytes_of_u16(x));
}

/// Appends the four big-endian bytes of a 32-bit value.
pub fn push_u32_be(out: &mut Vec<u8>, x: u32)
    ensures
        final(out)@ == old(out)@ + be_bytes_of_u32(x),
{
    out.push((x / 0x1000000) as u8);
    out.push(((x / 0x10000) % 256) as u8);
    out.push(((x / 256) % 256) as u8);
    out.push((x % 256) as u8);
    assert(out@ =~= old(out)@ + be_bytes_of_u32(x));
}

/// Appends the bytes `src[from..to]`.
pub fn push_range(out: &mut Vec<u8>, src: &[u8], from: usize, to: usize)
    requires
        from <= to <= src@.len(),
    ensures
        final(out)@ == old(out)@ + src@.subrange(from as int, to as int),
{
    let mut k: usize = from;
    while k < to
        invariant
            from <= k <= to <= src@.len(),
            out@ == old(out)@ + src@.subrange(from as int, k as int),
        decreases to - k,
    {
        let b = src[k];
        out.push(b);
        assert(out@ =~= old(out)@ + src@.subrange(from as int, k + 1));
        k = k + 1;
    }
}

/// Compares two byte strings for exact (bytewise) equality.
pub fn bytes_eq(a: &[u8], b: &[u8]) -> (r: bool)
    ensures
        r <==> a@ == b@,
{
    if a.len() != b.len() {
        return false;
    }
    let mut i: usize = 0;
    while i < a.len()
        invariant
            i <= a@.len(),
            a@.len() == b@.len(),
            forall|j: int| 0 <= j < i ==> a@[j] == b@[j],
        decreases a@.len() - i,
    {
        if a[i] != b[i] {
            return false;
        }
        i = i + 1;
    }
    proof {
        assert(a@ =~= b@);
    }
    true
}

} // verus!
