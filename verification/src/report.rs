use vstd::prelude::*;
use vstd::arithmetic::power2::pow2;
use crate::addr::{ipv4_to_u32, u32_of_octets};
use crate::classify::{detect_class_and_priv, spec_class, spec_is_private, AddrClass};
use crate::engine::{
    compute_broadcast, compute_host_count, compute_host_range, compute_network, mask_from_prefix,
    spec_broadcast, spec_mask, spec_network, spec_wildcard, wildcard_from_mask,
};

verus! {

/// Everything derived from one address and prefix: the mask pair, the
/// subnet's bounds, its usable range and size, and the address's
/// classification.
pub struct SubnetInfo {
    pub address: u32,
    pub prefix: u8,
    pub mask: u32,
    pub wildcard: u32,
    pub network: u32,
    pub broadcast: u32,
    pub host_min: u32,
    pub host_max: u32,
    pub host_count: i64,
    pub class: AddrClass,
    pub is_private: bool,
}

/// Computes the full subnet report for an address and a prefix length.
pub fn analyze(octets: [u8; 4], prefix: u8) -> (r: SubnetInfo)
    requires
        prefix <= 32,
    ensures
        r.address == u32_of_octets(octets),
        r.prefix == prefix,
        r.mask == spec_mask(prefix),
        r.wildcard == spec_wildcard(spec_mask(prefix)),
        r.network == spec_network(r.address, r.mask),
        r.broadcast == spec_broadcast(r.network, r.wildcard),
        prefix <= 30 ==> r.host_min == r.network + 1 && r.host_max == r.broadcast - 1,
        prefix >= 31 ==> r.host_min == r.network && r.host_max == r.broadcast,
        r.host_min <= r.host_max,
        prefix <= 30 ==> r.host_count == pow2((32 - prefix) as nat) - 2,
        prefix == 31 ==> r.host_count == 2,
        prefix == 32 ==> r.host_count == 1,
        r.class == spec_class(octets[0]),
        r.is_private == spec_is_private(octets),
{
    let address = ipv4_to_u32(octets);
    let mask = mask_from_prefix(prefix);
    let wildcard = wildcard_from_mask(mask);
    let network = compute_network(address, mask);
    let broadcast = compute_broadcast(network, wildcard);
    proof {
        assert(network == network & mask) by (bit_vector)
            requires
                network == address & mask,
        ;
    }
    let (host_min, host_max) = compute_host_range(network, broadcast, prefix);
    let host_count = compute_host_count(prefix);
    let (class, is_private) = detect_class_and_priv(octets);
    SubnetInfo {
        address,
        prefix,
        mask,
        wildcard,
        network,
        broadcast,
        host_min,
        host_max,
        host_count,
        class,
        is_private,
    }
}

} // verus!
