use vstd::prelude::*;

verus! {

/// The four big-endian bytes of a 32-bit value, most significant first.
pub open spec fn u32_be_bytes(x: u32) -> Seq<u8> {
    seq![(x >> 24) as u8, (x >> 16) as u8, (x >> 8) as u8, x as u8]
}

/// The 32-bit value read big-endian from four bytes.
pub open spec fn u32_from_be(b0: u8, b1: u8, b2: u8, b3: u8) -> u32 {
    ((b0 as u32) << 24) | ((b1 as u32) << 16) | ((b2 as u32) << 8) | (b3 as u32)
}

/// The 32-bit value read big-endian from the first four entries of a byte
/// sequence.
pub open spec fn be32_at(b: Seq<u8>, i: int) -> u32
    recommends
        0 <= i,
        i + 4 <= b.len(),
{
    u32_from_be(b[i], b[i + 1], b[i + 2], b[i + 3])
}

/// Reading back the big-endian bytes of a value gives the value.
pub proof fn lemma_u32_be_round_trip(x: u32)
    ensures
        u32_from_be(
            u32_be_bytes(x)[0],
            u32_be_bytes(x)[1],
            u32_be_bytes(x)[2],
            u32_be_bytes(x)[3],
        ) == x,
{
    assert((((x >> 24) as u8 as u32) << 24) | (((x >> 16) as u8 as u32) << 16) | (((x
        >> 8) as u8 as u32) << 8) | (x as u8 as u32) == x) by (bit_vector);
}

pub fn u32_from_be_exec(b0: u8, b1: u8, b2: u8, b3: u8) -> (r: u32)
    ensures
        r == u32_from_be(b0, b1, b2, b3),
{
    ((b0 as u32) << 24) | ((b1 as u32) << 16) | ((b2 as u32) << 8) | (b3 as u32)
}

/// The sixteen big-endian bytes of a 128-bit value, most significant first.
pub open spec fn u128_be_bytes(x: u128) -> Seq<u8> {
    seq![
        (x >> 120) as u8,
        (x >> 112) as u8,
        (x >> 104) as u8,
        (x >> 96) as u8,
        (x >> 88) as u8,
        (x >> 80) as u8,
        (x >> 72) as u8,
        (x >> 64) as u8,
        (x >> 56) as u8,
        (x >> 48) as u8,
        (x >> 40) as u8,
        (x >> 32) as u8,
        (x >> 24) as u8,
        (x >> 16) as u8,
        (x >> 8) as u8,
        x as u8,
    ]
}

pub fn u128_be_bytes_exec(x: u128) -> (r: Vec<u8>)
    ensures
        r@ == u128_be_bytes(x),
{
    let mut r: Vec<u8> = Vec::new();
    r.push((x >> 120) as u8);
    r.push((x >> 112) as u8);
    r.push((x >> 104) as u8);
    r.push((x >> 96) as u8);
    r.push((x >> 88) as u8);
    r.push((x >> 80) as u8);
    r.push((x >> 72) as u8);
    r.push((x >> 64) as u8);
    r.push((x >> 56) as u8);
    r.push((x >> 48) as u8);
    r.push((x >> 40) as u8);
    r.push((x >> 32) as u8);
    r.push((x >> 24) as u8);
    r.push((x >> 16) as u8);
    r.push((x >> 8) as u8);
    r.push(x as u8);
    proof {
        assert(r@ =~= u128_be_bytes(x));
    }
    r
}

} // verus!
