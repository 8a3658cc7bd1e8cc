use vstd::prelude::*;

verus! {

/// The unsigned integer that the eight bytes `s[start..start + 8]` spell in big-endian order.
pub open spec fn be_u64(s: Seq<u8>, start: int) -> int {
    s[start] * 0x100_0000_0000_0000 + s[start + 1] * 0x1_0000_0000_0000 + s[start + 2]
        * 0x100_0000_0000 + s[start + 3] * 0x1_0000_0000 + s[start + 4] * 0x100_0000 + s[start + 5]
        * 0x1_0000 + s[start + 6] * 0x100 + s[start + 7]
}

/// The eight big-endian bytes of `v`.
pub open spec fn u64_be_bytes(v: u64) -> Seq<u8> {
    seq![
        (v / 0x100_0000_0000_0000 % 0x100) as u8,
        (v / 0x1_0000_0000_0000 % 0x100) as u8,
        (v / 0x100_0000_0000 % 0x100) as u8,
        (v / 0x1_0000_0000 % 0x100) as u8,
        (v / 0x100_0000 % 0x100) as u8,
        (v / 0x1_0000 % 0x100) as u8,
        (v / 0x100 % 0x100) as u8,
        (v % 0x100) as u8,
    ]
}

/// Reads the big-endian `u64` at `data[start..start + 8]`.
pub fn read_be_u64(data: &Vec<u8>, start: usize) -> (r: u64)
    requires
        start + 8 <= data.len(),
    ensures
        r as int == be_u64(data@, start as int),
{
    let b0 = data[start] as u64;
    let b1 = data[start + 1] as u64;
    let b2 = data[start + 2] as u64;
    let b3 = data[start + 3] as u64;
    let b4 = data[start + 4] as u64;
    let b5 = data[start + 5] as u64;
    let b6 = data[start + 6] as u64;
    let b7 = data[start + 7] as u64;
    b0 * 0x100_0000_0000_0000 + b1 * 0x1_0000_0000_0000 + b2 * 0x100_0000_0000 + b3
        * 0x1_0000_0000 + b4 * 0x100_0000 + b5 * 0x1_0000 + b6 * 0x100 + b7
}

/// The eight big-endian bytes of `v`.
pub fn write_be_u64(v: u64) -> (r: Vec<u8>)
    ensures
        r@ == u64_be_bytes(v),
{
    let mut r: Vec<u8> = Vec::new();
    r.push((v / 0x100_0000_0000_0000 % 0x100) as u8);
    r.push((v / 0x1_0000_0000_0000 % 0x100) as u8);
    r.push((v / 0x100_0000_0000 % 0x100) as u8);
    r.push((v / 0x1_0000_0000 % 0x100) as u8);
    r.push((v / 0x100_0000 % 0x100) as u8);
    r.push((v / 0x1_0000 % 0x100) as u8);
    r.push((v / 0x100 % 0x100) as u8);
    r.push((v % 0x100) as u8);
    proof {
        assert(r@ =~= u64_be_bytes(v));
    }
    r
}

} // verus!
