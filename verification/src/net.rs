//! Internet addresses as plain numbers, the way the address book, bans and permissions read
//! them.

use vstd::prelude::*;

verus! {

/// An IP address: IPv4 as its 32 bits, IPv6 as its 128 bits, both big-endian as written.
#[derive(Debug, Clone, Copy, PartialEq, Eq, Hash, Structural)]
pub enum IpAddress {
    V4(u32),
    V6(u128),
}

/// The IPv4-mapped prefix `::ffff:0:0/96`, as the top 96 bits of an IPv6 address.
pub open spec fn mapped_prefix() -> u128 {
    0xffff
}

/// The IPv6 form of an address: IPv6 as it is, IPv4 mapped into `::ffff:0:0/96`.
pub open spec fn spec_ipv6_bits(ip: IpAddress) -> u128 {
    match ip {
        IpAddress::V4(a) => (0xffff_0000_0000u128 | (a as u128)),
        IpAddress::V6(b) => b,
    }
}

/// Whether an IPv6 address is an IPv4 address in mapped form.
pub open spec fn is_mapped(b: u128) -> bool {
    b >> 32u128 == mapped_prefix()
}

/// An address of an IPv6 form: IPv4 when it is mapped, else IPv6.
pub open spec fn spec_from_ipv6_bits(b: u128) -> IpAddress {
    if is_mapped(b) {
        IpAddress::V4(b as u32)
    } else {
        IpAddress::V6(b)
    }
}

impl IpAddress {
    /// The IPv6 form: IPv4 addresses are mapped.
    pub fn to_ipv6_bits(self) -> (r: u128)
        ensures
            r == spec_ipv6_bits(self),
    {
        match self {
            IpAddress::V4(a) => 0xffff_0000_0000u128 | (a as u128),
            IpAddress::V6(b) => b,
        }
    }

    /// The address an IPv6 form stands for: a mapped one is IPv4.
    pub fn from_ipv6_bits(b: u128) -> (r: IpAddress)
        ensures
            r == spec_from_ipv6_bits(b),
    {
        if b >> 32u128 == 0xffff {
            IpAddress::V4(#[verifier::truncate] (b as u32))
        } else {
            IpAddress::V6(b)
        }
    }

    pub fn is_ipv4(self) -> (r: bool)
        ensures
            r == (self is V4),
    {
        match self {
            IpAddress::V4(_) => true,
            IpAddress::V6(_) => false,
        }
    }
}

/// An IPv4 address read back from its mapped form is itself; an IPv6 address that is not in
/// mapped form is too.
pub proof fn lemma_ipv6_roundtrip(ip: IpAddress)
    ensures
        (ip is V4 || !is_mapped(spec_ipv6_bits(ip))) ==> spec_from_ipv6_bits(spec_ipv6_bits(ip)) == ip,
        ip is V4 ==> is_mapped(spec_ipv6_bits(ip)),
{
    match ip {
        IpAddress::V4(a) => {
            assert(((0xffff_0000_0000u128 | (a as u128)) >> 32u128) == 0xffffu128) by (bit_vector);
            assert(((0xffff_0000_0000u128 | (a as u128)) as u32) == a) by (bit_vector);
        },
        IpAddress::V6(_) => {},
    }
}

} // verus!
