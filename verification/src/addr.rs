use vstd::prelude::*;

verus! {

/// The 32-bit value of an address given as four octets in network byte
/// order (most significant octet first).
pub open spec fn u32_of_octets(o: [u8; 4]) -> u32 {
    ((o[0] as u32) * 0x1000000 + (o[1] as u32) * 0x10000 + (o[2] as u32) * 0x100 + (
    o[3] as u32)) as u32
}

/// Packs four octets into the 32-bit address value.
pub fn ipv4_to_u32(o: [u8; 4]) -> (r: u32)
    ensures
        r == u32_of_octets(o),
        r >> 24 == o[0],
        (r >> 16) & 0xFF == o[1],
        (r >> 8) & 0xFF == o[2],
        r & 0xFF == o[3],
{
    let r: u32 = (o[0] as u32) * 0x1000000 + (o[1] as u32) * 0x10000 + (o[2] as u32) * 0x100 + (
    o[3] as u32);
    proof {
        let a = o[0];
        let b = o[1];
        let c = o[2];
        let d = o[3];
        assert(r >> 24 == a && (r >> 16) & 0xFF == b && (r >> 8) & 0xFF == c && r & 0xFF == d)
            by (bit_vector)
            requires
                r == (a as u32) * 0x1000000 + (b as u32) * 0x10000 + (c as u32) * 0x100 + (
                d as u32),
        ;
    }
    r
}

/// Unpacks a 32-bit address value into its four octets, most significant
/// first.
pub fn u32_to_ipv4(x: u32) -> (r: [u8; 4])
    ensures
        u32_of_octets(r) == x,
        r[0] == x / 0x1000000,
        r[1] == (x / 0x10000) % 0x100,
        r[2] == (x / 0x100) % 0x100,
        r[3] == x % 0x100,
{
    let a: u8 = (x >> 24) as u8;
    let b: u8 = (x >> 16) as u8;
    let c: u8 = (x >> 8) as u8;
    let d: u8 = x as u8;
    proof {
        assert((a as u32) * 0x1000000 + (b as u32) * 0x10000 + (c as u32) * 0x100 + (d as u32)
            == x && a == x / 0x1000000 && b == (x / 0x10000) % 0x100 && c == (x / 0x100) % 0x100
            && d == x % 0x100) by (bit_vector)
            requires
                a == (x >> 24) as u8,
                b == (x >> 16) as u8,
                c == (x >> 8) as u8,
                d == x as u8,
        ;
    }
    [a, b, c, d]
}

} // verus!
