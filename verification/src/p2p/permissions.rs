//! Peer permissions, modelled on Bitcoin Core's `-whitelist` flags.
//!
//! Config syntax: `"flag,flag@subnet"`, for example `"noban@127.0.0.1"` or
//! `"noban,download@10.0.0.0/8"`.
//!
//! Most flags only matter once we accept inbound connections and serve data. Only `noban`
//! changes behaviour today; the rest are parsed and stored so the syntax stays stable.

use vstd::prelude::*;
use vstd::bytes::*;

use crate::bytes::str_eq;
use crate::net::{spec_ipv6_bits, IpAddress};

verus! {

/// A network range, like Bitcoin Core's `CSubNet`.
#[derive(Debug, Clone, Copy, PartialEq, Eq, Hash, Structural)]
pub struct Subnet {
    /// Always stored as IPv6; IPv4 addresses are mapped.
    address: u128,
    /// Prefix length in bits, counted over the IPv6 form.
    prefix: u8,
}

/// Why a subnet was refused.
#[derive(Debug, Clone, Copy, PartialEq, Eq, Structural)]
pub enum SubnetError {
    /// A prefix longer than the address: 32 bits for IPv4, 128 for IPv6.
    PrefixTooLong,
}

/// Whether the first `prefix` bits of two 128-bit addresses agree.
pub open spec fn prefix_match(net: u128, prefix: u8, addr: u128) -> bool {
    prefix == 0 || (addr >> ((128 - prefix) as u128)) == (net >> ((128 - prefix) as u128))
}

impl Subnet {
    /// The network address, in IPv6 form.
    pub closed spec fn spec_address(self) -> u128 {
        self.address
    }

    /// The prefix length over the IPv6 form.
    pub closed spec fn spec_prefix(self) -> u8 {
        self.prefix
    }

    /// Whether the subnet holds an address.
    pub open spec fn spec_contains(self, ip: IpAddress) -> bool {
        prefix_match(self.spec_address(), self.spec_prefix(), spec_ipv6_bits(ip))
    }

    /// The range holding exactly one address.
    pub fn single(ip: IpAddress) -> (r: Subnet)
        ensures
            r.spec_address() == spec_ipv6_bits(ip),
            r.spec_prefix() == 128,
    {
        Subnet { address: ip.to_ipv6_bits(), prefix: 128 }
    }

    /// The range of `ip` with the given prefix length, counted over the address as written:
    /// at most 32 for IPv4, 128 for IPv6, the whole address when none is given. A /24 written
    /// for an IPv4 address means the last 24 bits of its IPv6 form.
    pub fn new(ip: IpAddress, prefix: Option<u8>) -> (r: Result<Subnet, SubnetError>)
        ensures
            ({
                let max: u8 = if ip is V4 { 32 } else { 128 };
                let p: u8 = match prefix { Some(p) => p, None => max };
                if p > max {
                    r == Err::<Subnet, SubnetError>(SubnetError::PrefixTooLong)
                } else {
                    r is Ok && r->Ok_0.spec_address() == spec_ipv6_bits(ip) && r->Ok_0.spec_prefix()
                        == if ip is V4 { (p + 96) as u8 } else { p }
                }
            }),
    {
        let max: u8 = if ip.is_ipv4() { 32 } else { 128 };
        let p = match prefix {
            Some(p) => p,
            None => max,
        };
        if p > max {
            return Err(SubnetError::PrefixTooLong);
        }
        let prefix = if ip.is_ipv4() { p + 96 } else { p };
        Ok(Subnet { address: ip.to_ipv6_bits(), prefix })
    }

    pub fn address_bits(&self) -> (r: u128)
        ensures
            r == self.spec_address(),
    {
        self.address
    }

    pub fn prefix(&self) -> (r: u8)
        ensures
            r == self.spec_prefix(),
    {
        self.prefix
    }

    /// Whether the prefix fits the 128 bits of an address. Every subnet built from an address
    /// does; one read back from stored bytes may not, and cannot be matched against.
    pub open spec fn spec_prefix_fits(self) -> bool {
        self.spec_prefix() <= 128
    }

    /// Whether the address's first `prefix` bits, in IPv6 form, match the network's.
    pub fn contains(&self, ip: IpAddress) -> (r: bool)
        requires
            self.spec_prefix_fits(),
        ensures
            r == self.spec_contains(ip),
    {
        if self.prefix == 0 {
            return true;
        }
        let shift: u128 = (128 - self.prefix) as u128;
        let bits = ip.to_ipv6_bits();
        (bits >> shift) == (self.address >> shift)
    }

    /// 17 bytes: the address big-endian, then the prefix length.
    pub open spec fn spec_bytes(self) -> Seq<u8> {
        spec_u128_to_le_bytes(self.spec_address()).reverse().push(self.spec_prefix())
    }

    /// 17 bytes: the address big-endian, then the prefix length.
    pub fn to_bytes(self) -> (r: [u8; 17])
        ensures
            r@ == self.spec_bytes(),
    {
        proof {
            lemma_auto_spec_u128_to_from_le_bytes();
        }
        let le = u128_to_le_bytes(self.address);
        let mut bytes = [0u8; 17];
        let mut i: usize = 0;
        while i < 16
            invariant
                i <= 16,
                le@.len() == 16,
                forall|j: int| 0 <= j < i ==> bytes@[j] == le@[15 - j],
            decreases 16 - i,
        {
            bytes.set(i, le[15 - i]);
            i = i + 1;
        }
        bytes.set(16, self.prefix);
        proof {
            assert(bytes@ =~= self.spec_bytes());
        }
        bytes
    }

    /// The subnet whose bytes these are.
    pub closed spec fn spec_from_bytes(bytes: Seq<u8>) -> Subnet {
        Subnet {
            address: spec_u128_from_le_bytes(bytes.subrange(0, 16).reverse()),
            prefix: bytes[16],
        }
    }

    /// Whether bytes hold a subnet: there are at least 17 of them.
    pub open spec fn spec_decodable(bytes: Seq<u8>) -> bool {
        bytes.len() >= 17
    }

    /// The subnet the first 17 bytes encode, whatever the prefix byte holds; `None` when there
    /// are fewer. Bytes past the 17th are ignored.
    pub fn from_bytes(bytes: &[u8]) -> (r: Option<Subnet>)
        ensures
            r is Some <==> Subnet::spec_decodable(bytes@),
            r is Some ==> r->Some_0.spec_bytes() == bytes@.subrange(0, 17) && r->Some_0
                == Subnet::spec_from_bytes(bytes@),
    {
        proof {
            lemma_auto_spec_u128_to_from_le_bytes();
        }
        if bytes.len() < 17 {
            return None;
        }
        let mut le: Vec<u8> = Vec::new();
        let mut i: usize = 16;
        while i > 0
            invariant
                i <= 16,
                bytes@.len() >= 17,
                le@ == bytes@.subrange(i as int, 16).reverse(),
            decreases i,
        {
            i = i - 1;
            le.push(bytes[i]);
            assert(le@ =~= bytes@.subrange(i as int, 16).reverse());
        }
        let s = Subnet { address: u128_from_le_bytes(le.as_slice()), prefix: bytes[16] };
        proof {
            assert(le@ =~= bytes@.subrange(0, 16).reverse());
            assert(s == Subnet::spec_from_bytes(bytes@));
            assert(bytes@.subrange(0, 16).reverse().reverse() =~= bytes@.subrange(0, 16));
            assert(s.spec_bytes() =~= bytes@.subrange(0, 17));
        }
        Some(s)
    }
}

/// A subnet stored and read back is the subnet.
pub proof fn lemma_subnet_roundtrip(s: Subnet, t: Subnet)
    requires
        t.spec_bytes() == s.spec_bytes(),
    ensures
        t == s,
{
    lemma_auto_spec_u128_to_from_le_bytes();
    let a = spec_u128_to_le_bytes(s.spec_address());
    let b = spec_u128_to_le_bytes(t.spec_address());
    assert(s.spec_bytes().subrange(0, 16) =~= a.reverse());
    assert(t.spec_bytes().subrange(0, 16) =~= b.reverse());
    assert(a.reverse().reverse() =~= a);
    assert(b.reverse().reverse() =~= b);
    assert(s.spec_bytes()[16] == s.spec_prefix());
    assert(t.spec_bytes()[16] == t.spec_prefix());
}

/// A single-address range holds that address and no other.
pub proof fn lemma_single_holds_one(ip: IpAddress, other: IpAddress, s: Subnet)
    requires
        s.spec_address() == spec_ipv6_bits(ip),
        s.spec_prefix() == 128,
    ensures
        s.spec_contains(other) <==> spec_ipv6_bits(other) == spec_ipv6_bits(ip),
{
    let a = spec_ipv6_bits(other);
    let n = spec_ipv6_bits(ip);
    assert((a >> 0u128) == a && (n >> 0u128) == n) by (bit_vector);
}

/// Permission flags, as in Bitcoin Core's `NetPermissionFlags`.
#[derive(Debug, Clone, Copy, PartialEq, Eq, Structural)]
pub struct Permissions(u32);

impl Default for Permissions {
    fn default() -> (r: Permissions)
        ensures
            r.spec_bits() == 0,
    {
        Permissions(0)
    }
}

impl Permissions {
    pub closed spec fn spec_bits(self) -> u32 {
        self.0
    }

    pub fn none() -> (r: Permissions)
        ensures
            r.spec_bits() == 0,
    {
        Permissions(0)
    }

    /// Never disconnected or banned for misbehaviour. Active today.
    pub fn no_ban() -> (r: Permissions)
        ensures
            r.spec_bits() == 1,
    {
        Permissions(1)
    }

    /// May request blocks even when we are busy. Inactive: we serve nothing yet.
    pub fn download() -> (r: Permissions)
        ensures
            r.spec_bits() == 2,
    {
        Permissions(2)
    }

    /// Transactions are relayed to this peer. Inactive: no transaction relay yet.
    pub fn relay() -> (r: Permissions)
        ensures
            r.spec_bits() == 4,
    {
        Permissions(4)
    }

    /// Transactions from this peer bypass relay policy. Inactive.
    pub fn force_relay() -> (r: Permissions)
        ensures
            r.spec_bits() == 8,
    {
        Permissions(8)
    }

    /// May query our mempool. Inactive.
    pub fn mempool() -> (r: Permissions)
        ensures
            r.spec_bits() == 16,
    {
        Permissions(16)
    }

    /// Address messages from this peer bypass rate limits. Inactive.
    pub fn addr() -> (r: Permissions)
        ensures
            r.spec_bits() == 32,
    {
        Permissions(32)
    }

    /// May set bloom filters. Inactive.
    pub fn bloom_filter() -> (r: Permissions)
        ensures
            r.spec_bits() == 64,
    {
        Permissions(64)
    }

    pub fn bits(self) -> (r: u32)
        ensures
            r == self.spec_bits(),
    {
        self.0
    }

    pub open spec fn spec_contains(self, other: Permissions) -> bool {
        self.spec_bits() & other.spec_bits() == other.spec_bits()
    }

    /// Whether every flag of `other` is set here.
    pub fn contains(self, other: Permissions) -> (r: bool)
        ensures
            r == self.spec_contains(other),
    {
        self.0 & other.0 == other.0
    }

    pub fn insert(&mut self, other: Permissions)
        ensures
            final(self).spec_bits() == old(self).spec_bits() | other.spec_bits(),
    {
        self.0 = self.0 | other.0;
    }

    /// The flag a config name stands for, ignoring whitespace around it.
    pub fn parse_flag(name: &str) -> (r: Option<Permissions>)
        ensures
            match r {
                Some(p) => flag_bits(spec_trim(name@)) == Some(p.spec_bits()),
                None => flag_bits(spec_trim(name@)) is None,
            },
    {
        let name = trimmed(name);
        if str_eq(name, "noban") {
            Some(Permissions::no_ban())
        } else if str_eq(name, "download") {
            Some(Permissions::download())
        } else if str_eq(name, "relay") {
            Some(Permissions::relay())
        } else if str_eq(name, "forcerelay") {
            Some(Permissions::force_relay())
        } else if str_eq(name, "mempool") {
            Some(Permissions::mempool())
        } else if str_eq(name, "addr") {
            Some(Permissions::addr())
        } else if str_eq(name, "bloomfilter") {
            Some(Permissions::bloom_filter())
        } else {
            None
        }
    }
}

/// The bit of the flag a name stands for.
pub open spec fn flag_bits(name: Seq<char>) -> Option<u32> {
    if name == "noban"@ {
        Some(1)
    } else if name == "download"@ {
        Some(2)
    } else if name == "relay"@ {
        Some(4)
    } else if name == "forcerelay"@ {
        Some(8)
    } else if name == "mempool"@ {
        Some(16)
    } else if name == "addr"@ {
        Some(32)
    } else if name == "bloomfilter"@ {
        Some(64)
    } else {
        None
    }
}

/// Unicode's `White_Space` property: the characters `str::trim` removes.
pub open spec fn is_white_space(c: char) -> bool {
    let n = c as u32;
    ||| 0x09 <= n <= 0x0d
    ||| n == 0x20 || n == 0x85 || n == 0xa0 || n == 0x1680
    ||| 0x2000 <= n <= 0x200a
    ||| n == 0x2028 || n == 0x2029 || n == 0x202f || n == 0x205f || n == 0x3000
}

/// A string without its leading whitespace.
pub open spec fn trim_start(s: Seq<char>) -> Seq<char>
    decreases s.len(),
{
    if s.len() > 0 && is_white_space(s[0]) {
        trim_start(s.drop_first())
    } else {
        s
    }
}

/// A string without its trailing whitespace.
pub open spec fn trim_end(s: Seq<char>) -> Seq<char>
    decreases s.len(),
{
    if s.len() > 0 && is_white_space(s.last()) {
        trim_end(s.drop_last())
    } else {
        s
    }
}

/// A string without the whitespace around it.
pub open spec fn spec_trim(s: Seq<char>) -> Seq<char> {
    trim_end(trim_start(s))
}

/// `str::trim`: the string without leading and trailing characters of Unicode's
/// `White_Space` property, as its documentation defines it.
#[verifier::external_body]
fn trimmed(s: &str) -> (r: &str)
    ensures
        r@ == spec_trim(s@),
{
    s.trim()
}

/// Adding flags keeps the ones already set and sets the new ones.
pub proof fn lemma_insert_keeps(p: Permissions, q: Permissions, x: Permissions)
    ensures
        p.spec_contains(x) ==> (p.spec_bits() | q.spec_bits()) & x.spec_bits() == x.spec_bits(),
        (p.spec_bits() | q.spec_bits()) & q.spec_bits() == q.spec_bits(),
{
    let (a, b, c) = (p.spec_bits(), q.spec_bits(), x.spec_bits());
    assert(a & c == c ==> (a | b) & c == c) by (bit_vector);
    assert((a | b) & b == b) by (bit_vector);
}

/// The flags of every entry whose subnet holds an address, or-ed together.
pub open spec fn granted(entries: Seq<(Subnet, Permissions)>, ip: IpAddress) -> u32
    decreases entries.len(),
{
    if entries.len() == 0 {
        0
    } else {
        let rest = granted(entries.drop_last(), ip);
        let (subnet, p) = entries.last();
        if subnet.spec_contains(ip) {
            rest | p.spec_bits()
        } else {
            rest
        }
    }
}

/// Permissions granted to peers by address, from the config file.
#[derive(Debug)]
pub struct PermissionTable {
    entries: Vec<(Subnet, Permissions)>,
}

impl Clone for PermissionTable {
    fn clone(&self) -> (r: PermissionTable)
        ensures
            r.spec_entries() == self.spec_entries(),
    {
        proof {
            use_type_invariant(self);
        }
        let mut entries: Vec<(Subnet, Permissions)> = Vec::new();
        let mut i: usize = 0;
        while i < self.entries.len()
            invariant
                i <= self.entries@.len(),
                entries@ == self.entries@.take(i as int),
                forall|j: int| 0 <= j < self.entries@.len() ==> (#[trigger] self.entries@[j]).0.spec_prefix_fits(),
            decreases self.entries@.len() - i,
        {
            entries.push(self.entries[i]);
            assert(entries@ =~= self.entries@.take(i + 1));
            i = i + 1;
        }
        assert(entries@ =~= self.entries@);
        PermissionTable { entries }
    }
}

impl Default for PermissionTable {
    fn default() -> (r: PermissionTable)
        ensures
            r.spec_entries().len() == 0,
    {
        PermissionTable { entries: Vec::new() }
    }
}

impl PermissionTable {
    #[verifier::type_invariant]
    spec fn prefixes_fit(self) -> bool {
        forall|i: int| 0 <= i < self.entries@.len() ==> (#[trigger] self.entries@[i]).0.spec_prefix_fits()
    }

    pub closed spec fn spec_entries(self) -> Seq<(Subnet, Permissions)> {
        self.entries@
    }

    pub fn new() -> (r: PermissionTable)
        ensures
            r.spec_entries().len() == 0,
    {
        PermissionTable { entries: Vec::new() }
    }

    /// Grants `permissions` to every address in `subnet`.
    pub fn grant(&mut self, subnet: Subnet, permissions: Permissions)
        requires
            subnet.spec_prefix_fits(),
        ensures
            final(self).spec_entries() == old(self).spec_entries().push((subnet, permissions)),
    {
        proof {
            use_type_invariant(&*self);
        }
        let mut entries = Vec::new();
        std::mem::swap(&mut entries, &mut self.entries);
        entries.push((subnet, permissions));
        self.entries = entries;
    }

    /// Everything granted to an address, by every entry whose subnet holds it.
    pub fn for_peer(&self, ip: IpAddress) -> (r: Permissions)
        ensures
            r.spec_bits() == granted(self.spec_entries(), ip),
    {
        proof {
            use_type_invariant(self);
        }
        let mut permissions = Permissions::none();
        let mut i: usize = 0;
        while i < self.entries.len()
            invariant
                i <= self.entries@.len(),
                forall|j: int| 0 <= j < self.entries@.len() ==> (#[trigger] self.entries@[j]).0.spec_prefix_fits(),
                permissions.spec_bits() == granted(self.entries@.take(i as int), ip),
            decreases self.entries@.len() - i,
        {
            let (subnet, p) = self.entries[i];
            proof {
                assert(self.entries@.take(i + 1).drop_last() =~= self.entries@.take(i as int));
                assert(self.entries@.take(i + 1).last() == self.entries@[i as int]);
            }
            if subnet.contains(ip) {
                permissions.insert(p);
            }
            i = i + 1;
        }
        proof {
            assert(self.entries@.take(self.entries@.len() as int) =~= self.entries@);
        }
        permissions
    }
}

} // verus!
