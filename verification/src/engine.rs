use vstd::prelude::*;
use vstd::arithmetic::power2::{
    pow2, lemma2_to64, lemma2_to64_rest, lemma_pow2_strictly_increases,
};
use vstd::bits::{lemma_u64_shl_is_mul, lemma_u64_pow2_no_overflow};

verus! {

/// True when bit `i` (counting from the least significant bit) of `x` is set.
pub open spec fn bit(x: u32, i: u32) -> bool {
    (x >> i) & 1 == 1
}

/// The netmask for a prefix length: the top `prefix` bits set, the rest clear.
/// A prefix of 0 yields the all-zero mask; the shift is never by 32.
pub open spec fn spec_mask(prefix: u8) -> u32 {
    if prefix == 0 {
        0u32
    } else {
        (!0u32) << ((32 - prefix) as u32)
    }
}

/// The wildcard mask: bitwise complement of the netmask.
pub open spec fn spec_wildcard(mask: u32) -> u32 {
    !mask
}

/// The network address: the address with all host bits cleared.
pub open spec fn spec_network(addr: u32, mask: u32) -> u32 {
    addr & mask
}

/// The broadcast address: the network with all host bits set.
pub open spec fn spec_broadcast(network: u32, wildcard: u32) -> u32 {
    network | wildcard
}

/// A mask built from a prefix has exactly `prefix` leading one bits
/// followed by `32 - prefix` zero bits.
pub proof fn lemma_mask_leading_bits(prefix: u8)
    requires
        prefix <= 32,
    ensures
        forall|i: u32| i < 32 ==> (bit(spec_mask(prefix), i) <==> 32 - prefix <= i),
{
    let m = spec_mask(prefix);
    assert(forall|i: u32| i < 32 ==> (((m >> i) & 1 == 1) <==> 32 - prefix <= i))
        by (bit_vector)
        requires
            prefix <= 32,
            m == (if prefix == 0 {
                0u32
            } else {
                (!0u32) << ((32 - prefix) as u32)
            }),
    ;
}

/// The wildcard has exactly the bits that the mask lacks.
pub proof fn lemma_wildcard_complement(mask: u32)
    ensures
        forall|i: u32| i < 32 ==> (bit(spec_wildcard(mask), i) <==> !bit(mask, i)),
{
    assert(forall|i: u32| i < 32 ==> ((((!mask) >> i) & 1 == 1) <==> !((mask >> i) & 1 == 1)))
        by (bit_vector);
}

/// Network and wildcard bits are disjoint and together make up the
/// broadcast address: or-ing the network with the wildcard is the same
/// as adding them, and yields the broadcast.
pub proof fn lemma_network_wildcard_partition(addr: u32, mask: u32)
    ensures
        spec_network(addr, mask) & spec_wildcard(mask) == 0,
        spec_network(addr, mask) | spec_wildcard(mask) == spec_broadcast(
            spec_network(addr, mask),
            spec_wildcard(mask),
        ),
        spec_broadcast(spec_network(addr, mask), spec_wildcard(mask)) == spec_network(addr, mask)
            + spec_wildcard(mask),
{
    assert((addr & mask) & !mask == 0) by (bit_vector);
    assert((addr & mask) | !mask == (addr & mask) + !mask) by (bit_vector);
}

/// The netmask for a prefix length in [0, 32].
pub fn mask_from_prefix(prefix: u8) -> (r: u32)
    requires
        prefix <= 32,
    ensures
        r == spec_mask(prefix),
        forall|i: u32| i < 32 ==> (bit(r, i) <==> 32 - prefix <= i),
{
    proof {
        lemma_mask_leading_bits(prefix);
    }
    if prefix == 0 {
        0
    } else {
        (!0u32) << ((32 - prefix) as u32)
    }
}

/// The wildcard mask belonging to a netmask.
pub fn wildcard_from_mask(mask: u32) -> (r: u32)
    ensures
        r == spec_wildcard(mask),
        forall|i: u32| i < 32 ==> (bit(r, i) <==> !bit(mask, i)),
{
    proof {
        lemma_wildcard_complement(mask);
    }
    !mask
}

/// The network address of `addr` under `mask`.
pub fn compute_network(addr: u32, mask: u32) -> (r: u32)
    ensures
        r == spec_network(addr, mask),
{
    addr & mask
}

/// The broadcast address of a network under its wildcard.
pub fn compute_broadcast(network: u32, wildcard: u32) -> (r: u32)
    ensures
        r == spec_broadcast(network, wildcard),
{
    network | wildcard
}

/// For a prefix of at most 30 the subnet keeps at least three addresses
/// above the network address, so the usable range is non-empty and the
/// arithmetic below never wraps.
proof fn lemma_host_range_bounds(n: u32, b: u32, p: u8)
    requires
        p <= 30,
        n == n & spec_mask(p),
        b == (n | !spec_mask(p)),
    ensures
        n + 3 <= b,
{
    let m = spec_mask(p);
    assert(n + 3 <= b) by (bit_vector)
        requires
            p <= 30,
            m == (if p == 0 {
                0u32
            } else {
                (!0u32) << ((32 - p) as u32)
            }),
            n == n & m,
            b == (n | !m),
    ;
}

/// The usable host range of a subnet, given its network and broadcast
/// addresses. For a prefix of at most 30 the network and broadcast
/// themselves are excluded; a /31 uses both endpoints; a /32 is a single
/// host route.
pub fn compute_host_range(network: u32, broadcast: u32, prefix: u8) -> (r: (u32, u32))
    requires
        prefix <= 32,
        network == spec_network(network, spec_mask(prefix)),
        broadcast == spec_broadcast(network, spec_wildcard(spec_mask(prefix))),
    ensures
        prefix >= 31 ==> r == (network, broadcast),
        prefix <= 30 ==> r.0 == network + 1 && r.1 == broadcast - 1,
        r.0 <= r.1,
{
    if prefix >= 31 {
        proof {
            let w = spec_wildcard(spec_mask(prefix));
            assert(network <= (network | w)) by (bit_vector);
        }
        (network, broadcast)
    } else {
        proof {
            lemma_host_range_bounds(network, broadcast, prefix);
        }
        (network + 1, broadcast - 1)
    }
}

/// The number of usable host addresses of a subnet: 2^(32 - prefix) - 2
/// for prefixes up to 30, both endpoints for a /31, and one for a /32.
pub fn compute_host_count(prefix: u8) -> (r: i64)
    requires
        prefix <= 32,
    ensures
        prefix <= 30 ==> r == pow2((32 - prefix) as nat) - 2,
        prefix == 31 ==> r == 2,
        prefix == 32 ==> r == 1,
        1 <= r <= 0xFFFFFFFE,
{
    if prefix == 31 {
        2
    } else if prefix == 32 {
        1
    } else {
        let shift: u64 = (32 - prefix) as u64;
        let total: u64 = 1u64 << shift;
        proof {
            lemma_u64_pow2_no_overflow(shift as nat);
            lemma_u64_shl_is_mul(1u64, shift);
            lemma2_to64();
            lemma2_to64_rest();
            if shift > 2 {
                lemma_pow2_strictly_increases(2, shift as nat);
            }
            if shift < 32 {
                lemma_pow2_strictly_increases(shift as nat, 32);
            }
            assert(4 <= total <= 0x100000000);
        }
        (total - 2) as i64
    }
}

} // verus!
