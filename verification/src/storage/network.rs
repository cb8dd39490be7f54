//! Persistent peer addresses and bans: the records the address book and the ban list keep,
//! and the bytes they are stored as.

use vstd::prelude::*;
use vstd::array::*;
use vstd::bytes::*;
use vstd::utf8::{decode_utf8, valid_utf8};

use crate::bytes::copy_bytes;
use crate::net::{
    is_mapped, lemma_ipv6_roundtrip, spec_from_ipv6_bits, spec_ipv6_bits, IpAddress,
};
use super::db::{apply_all, lookup, pairs_view, scan_ok, Batch, Database, WriteView};
use super::error::{Result, StorageError};

verus! {

broadcast use vstd::seq_lib::group_seq_properties;

/// Key length of an address: 16-byte IPv6 form plus a 2-byte port.
pub const ADDRESS_KEY_LEN: usize = 18;

/// Value length of an address record.
pub const ADDRESS_VALUE_LEN: usize = 37;

/// A peer's address and port.
#[derive(Debug, Clone, Copy, PartialEq, Eq, Hash, Structural)]
pub struct PeerAddr {
    pub ip: IpAddress,
    pub port: u16,
}

/// The key an address is filed under: the 16 bytes of its IPv6 form, IPv4 mapped, then the
/// port, both big-endian.
pub open spec fn spec_address_key(addr: PeerAddr) -> Seq<u8> {
    spec_u128_to_le_bytes(spec_ipv6_bits(addr.ip)).reverse() + spec_u16_to_le_bytes(addr.port).reverse()
}

/// The key an address is filed under: the 16 bytes of its IPv6 form, IPv4 mapped, then the
/// port, both big-endian.
pub fn address_key(addr: PeerAddr) -> (r: Vec<u8>)
    ensures
        r@ == spec_address_key(addr),
        r@.len() == ADDRESS_KEY_LEN,
{
    proof {
        lemma_auto_spec_u16_to_from_le_bytes();
        lemma_auto_spec_u128_to_from_le_bytes();
    }
    let ip = u128_to_le_bytes(addr.ip.to_ipv6_bits());
    let mut key: Vec<u8> = Vec::new();
    let mut i: usize = 16;
    while i > 0
        invariant
            i <= 16,
            ip@.len() == 16,
            key@ == ip@.subrange(i as int, 16).reverse(),
        decreases i,
    {
        i = i - 1;
        key.push(ip[i]);
        assert(key@ =~= ip@.subrange(i as int, 16).reverse());
    }
    let port = u16_to_le_bytes(addr.port);
    key.push(port[1]);
    key.push(port[0]);
    proof {
        assert(ip@.subrange(0, 16) =~= ip@);
        assert(key@ =~= spec_address_key(addr));
    }
    key
}

/// The address a key names: `None` when it is shorter than `ADDRESS_KEY_LEN`. A mapped IPv4
/// address comes back as IPv4. Bytes past the key are ignored.
pub fn address_from_key(key: &[u8]) -> (r: Option<PeerAddr>)
    ensures
        r is Some <==> key@.len() >= ADDRESS_KEY_LEN,
        r is Some ==> {
            let a = r->Some_0;
            &&& spec_u128_to_le_bytes(spec_ipv6_bits(a.ip)).reverse() == key@.subrange(0, 16)
            &&& spec_u16_to_le_bytes(a.port).reverse() == key@.subrange(16, 18)
            &&& a.ip == spec_from_ipv6_bits(spec_ipv6_bits(a.ip))
        },
{
    proof {
        lemma_auto_spec_u16_to_from_le_bytes();
        lemma_auto_spec_u128_to_from_le_bytes();
    }
    if key.len() < ADDRESS_KEY_LEN {
        return None;
    }
    let mut le: Vec<u8> = Vec::new();
    let mut i: usize = 16;
    while i > 0
        invariant
            i <= 16,
            key@.len() >= 18,
            le@ == key@.subrange(i as int, 16).reverse(),
        decreases i,
    {
        i = i - 1;
        le.push(key[i]);
        assert(le@ =~= key@.subrange(i as int, 16).reverse());
    }
    let bits = u128_from_le_bytes(le.as_slice());
    let ip = IpAddress::from_ipv6_bits(bits);
    let port = u16_from_le_bytes(vec![key[17], key[16]].as_slice());
    proof {
        assert(key@.subrange(0, 16).reverse().reverse() =~= key@.subrange(0, 16));
        assert(spec_u128_to_le_bytes(bits) == le@);
        assert(spec_u128_to_le_bytes(bits).reverse() =~= key@.subrange(0, 16));
        assert(spec_ipv6_bits(ip) == bits) by {
            if is_mapped(bits) {
                assert((0xffff_0000_0000u128 | ((bits as u32) as u128)) == bits) by (bit_vector)
                    requires bits >> 32u128 == 0xffffu128;
            }
        }
        lemma_ipv6_roundtrip(ip);
        assert(spec_u16_to_le_bytes(port) == seq![key@[17], key@[16]]);
        assert(seq![key@[17], key@[16]].reverse() =~= key@.subrange(16, 18));
    }
    Some(PeerAddr { ip, port })
}

/// What we know about one peer address.
#[derive(Debug, Clone, Copy, PartialEq, Eq)]
pub struct AddressRecord {
    pub addr: PeerAddr,
    /// Services the peer claimed, as a raw bit mask.
    pub services: u64,
    /// Unix time the address was last announced to us.
    pub last_seen: i64,
    /// Unix time we last tried to connect.
    pub last_try: i64,
    /// Unix time a connection last succeeded.
    pub last_success: i64,
    /// Failed attempts since the last success.
    pub attempts: u32,
    /// True once a connection to this address has succeeded: Bitcoin Core's "tried" table.
    pub tried: bool,
}

/// Layout: services, last seen, last try, last success (8 bytes LE each), attempts (u32 LE),
/// tried (one byte, 1 or 0).
pub open spec fn spec_record_bytes(r: AddressRecord) -> Seq<u8> {
    spec_u64_to_le_bytes(r.services) + spec_u64_to_le_bytes(r.last_seen as u64) + spec_u64_to_le_bytes(
        r.last_try as u64,
    ) + spec_u64_to_le_bytes(r.last_success as u64) + spec_u32_to_le_bytes(r.attempts) + seq![
        if r.tried { 1u8 } else { 0u8 },
    ]
}

/// Whether a stored address entry can be read: a value of `ADDRESS_VALUE_LEN` bytes under a
/// key of at least `ADDRESS_KEY_LEN`.
pub open spec fn address_readable(key: Seq<u8>, bytes: Seq<u8>) -> bool {
    bytes.len() == ADDRESS_VALUE_LEN && key.len() >= ADDRESS_KEY_LEN
}

/// The record an address entry reads as: the address from the key, the fields from the value,
/// `tried` exactly when its byte is 1.
pub open spec fn reads_as_address(key: Seq<u8>, bytes: Seq<u8>, a: AddressRecord) -> bool {
    &&& spec_u128_to_le_bytes(spec_ipv6_bits(a.addr.ip)).reverse() == key.subrange(0, 16)
    &&& spec_u16_to_le_bytes(a.addr.port).reverse() == key.subrange(16, 18)
    &&& a.addr.ip == spec_from_ipv6_bits(spec_ipv6_bits(a.addr.ip))
    &&& spec_u64_to_le_bytes(a.services) == bytes.subrange(0, 8)
    &&& spec_u64_to_le_bytes(a.last_seen as u64) == bytes.subrange(8, 16)
    &&& spec_u64_to_le_bytes(a.last_try as u64) == bytes.subrange(16, 24)
    &&& spec_u64_to_le_bytes(a.last_success as u64) == bytes.subrange(24, 32)
    &&& spec_u32_to_le_bytes(a.attempts) == bytes.subrange(32, 36)
    &&& a.tried == (bytes[36] == 1)
}

/// A signed number survives the trip through its unsigned bits.
proof fn lemma_i64_bits(x: i64)
    ensures
        ((x as u64) as i64) == x,
{
    assert(((x as u64) as i64) == x) by (bit_vector);
}

impl AddressRecord {
    /// A fresh address, seen now and never tried.
    pub fn new(addr: PeerAddr, services: u64, now: i64) -> (r: AddressRecord)
        ensures
            r == (AddressRecord {
                addr,
                services,
                last_seen: now,
                last_try: 0,
                last_success: 0,
                attempts: 0,
                tried: false,
            }),
    {
        AddressRecord {
            addr,
            services,
            last_seen: now,
            last_try: 0,
            last_success: 0,
            attempts: 0,
            tried: false,
        }
    }

    pub fn key(&self) -> (r: Vec<u8>)
        ensures
            r@ == spec_address_key(self.addr),
    {
        address_key(self.addr)
    }

    pub fn to_bytes(&self) -> (r: Vec<u8>)
        ensures
            r@ == spec_record_bytes(*self),
            r@.len() == ADDRESS_VALUE_LEN,
    {
        proof {
            lemma_auto_spec_u64_to_from_le_bytes();
            lemma_auto_spec_u32_to_from_le_bytes();
        }
        let mut bytes = u64_to_le_bytes(self.services);
        bytes.extend_from_slice(u64_to_le_bytes(self.last_seen as u64).as_slice());
        bytes.extend_from_slice(u64_to_le_bytes(self.last_try as u64).as_slice());
        bytes.extend_from_slice(u64_to_le_bytes(self.last_success as u64).as_slice());
        bytes.extend_from_slice(u32_to_le_bytes(self.attempts).as_slice());
        bytes.push(if self.tried { 1u8 } else { 0u8 });
        bytes
    }

    /// Fails, with a `Corrupted` error, when the value is not `ADDRESS_VALUE_LEN` bytes or the
    /// key is shorter than `ADDRESS_KEY_LEN`. `tried` is set exactly when its byte is 1.
    pub fn from_bytes(key: &[u8], bytes: &[u8]) -> (r: Result<AddressRecord>)
        ensures
            r is Ok <==> address_readable(key@, bytes@),
            r is Err ==> r->Err_0 is Corrupted,
            r is Ok ==> reads_as_address(key@, bytes@, r->Ok_0),
    {
        proof {
            lemma_auto_spec_u64_to_from_le_bytes();
            lemma_auto_spec_u32_to_from_le_bytes();
        }
        if bytes.len() != ADDRESS_VALUE_LEN {
            return Err(StorageError::corrupted("address record", "wrong length".to_owned()));
        }
        let addr = match address_from_key(key) {
            Some(a) => a,
            None => return Err(StorageError::corrupted("address record", "invalid key".to_owned())),
        };
        let services = u64_from_le_bytes(vstd::slice::slice_subrange(bytes, 0, 8));
        let last_seen = u64_from_le_bytes(vstd::slice::slice_subrange(bytes, 8, 16));
        let last_try = u64_from_le_bytes(vstd::slice::slice_subrange(bytes, 16, 24));
        let last_success = u64_from_le_bytes(vstd::slice::slice_subrange(bytes, 24, 32));
        let attempts = u32_from_le_bytes(vstd::slice::slice_subrange(bytes, 32, 36));
        proof {
            lemma_u64_bits(last_seen);
            lemma_u64_bits(last_try);
            lemma_u64_bits(last_success);
        }
        Ok(AddressRecord {
            addr,
            services,
            last_seen: #[verifier::truncate] (last_seen as i64),
            last_try: #[verifier::truncate] (last_try as i64),
            last_success: #[verifier::truncate] (last_success as i64),
            attempts,
            tried: bytes[36] == 1,
        })
    }
}

/// An unsigned number survives the trip through its signed bits.
proof fn lemma_u64_bits(x: u64)
    ensures
        ((x as i64) as u64) == x,
{
    assert(((x as i64) as u64) == x) by (bit_vector);
}

/// A record stored and read back is the record, unless its address is IPv6 in mapped form,
/// which comes back as IPv4.
pub proof fn lemma_record_roundtrip(r: AddressRecord, a: AddressRecord)
    requires
        r.addr.ip is V4 || !is_mapped(spec_ipv6_bits(r.addr.ip)),
        spec_u128_to_le_bytes(spec_ipv6_bits(a.addr.ip)).reverse() == spec_address_key(r.addr).subrange(0, 16),
        spec_u16_to_le_bytes(a.addr.port).reverse() == spec_address_key(r.addr).subrange(16, 18),
        a.addr.ip == spec_from_ipv6_bits(spec_ipv6_bits(a.addr.ip)),
        spec_u64_to_le_bytes(a.services) == spec_record_bytes(r).subrange(0, 8),
        spec_u64_to_le_bytes(a.last_seen as u64) == spec_record_bytes(r).subrange(8, 16),
        spec_u64_to_le_bytes(a.last_try as u64) == spec_record_bytes(r).subrange(16, 24),
        spec_u64_to_le_bytes(a.last_success as u64) == spec_record_bytes(r).subrange(24, 32),
        spec_u32_to_le_bytes(a.attempts) == spec_record_bytes(r).subrange(32, 36),
        a.tried == (spec_record_bytes(r)[36] == 1),
    ensures
        a == r,
{
    lemma_auto_spec_u64_to_from_le_bytes();
    lemma_auto_spec_u32_to_from_le_bytes();
    lemma_auto_spec_u16_to_from_le_bytes();
    lemma_auto_spec_u128_to_from_le_bytes();
    let b = spec_record_bytes(r);
    assert(b.subrange(0, 8) =~= spec_u64_to_le_bytes(r.services));
    assert(b.subrange(8, 16) =~= spec_u64_to_le_bytes(r.last_seen as u64));
    assert(b.subrange(16, 24) =~= spec_u64_to_le_bytes(r.last_try as u64));
    assert(b.subrange(24, 32) =~= spec_u64_to_le_bytes(r.last_success as u64));
    assert(b.subrange(32, 36) =~= spec_u32_to_le_bytes(r.attempts));
    lemma_i64_bits(r.last_seen);
    lemma_i64_bits(r.last_try);
    lemma_i64_bits(r.last_success);
    lemma_i64_bits(a.last_seen);
    lemma_i64_bits(a.last_try);
    lemma_i64_bits(a.last_success);
    let kr = spec_address_key(r.addr);
    let ra = spec_u128_to_le_bytes(spec_ipv6_bits(a.addr.ip));
    let rr = spec_u128_to_le_bytes(spec_ipv6_bits(r.addr.ip));
    assert(kr.subrange(0, 16) =~= rr.reverse());
    assert(ra.reverse().reverse() =~= ra);
    assert(rr.reverse().reverse() =~= rr);
    assert(spec_ipv6_bits(a.addr.ip) == spec_ipv6_bits(r.addr.ip));
    lemma_ipv6_roundtrip(r.addr.ip);
    let pa = spec_u16_to_le_bytes(a.addr.port);
    let pr = spec_u16_to_le_bytes(r.addr.port);
    assert(kr.subrange(16, 18) =~= pr.reverse());
    assert(pa.reverse().reverse() =~= pa);
    assert(pr.reverse().reverse() =~= pr);
}

/// One banned network range.
#[derive(Debug, Clone, PartialEq, Eq)]
pub struct BanRecord {
    /// Encoded subnet, 16-byte address plus prefix length.
    pub subnet: [u8; 17],
    pub created: i64,
    /// Unix time the ban expires.
    pub until: i64,
    pub reason: String,
}

/// The reason's bytes as stored: at most `u32::MAX` of them.
pub open spec fn stored_reason(reason: Seq<char>) -> Seq<u8> {
    let b = vstd::utf8::encode_utf8(reason);
    if b.len() <= u32::MAX {
        b
    } else {
        b.take(u32::MAX as int)
    }
}

/// Layout: created and until (8 bytes LE each), the reason's length (u32 LE), the reason.
pub open spec fn spec_ban_bytes(b: BanRecord) -> Seq<u8> {
    spec_u64_to_le_bytes(b.created as u64) + spec_u64_to_le_bytes(b.until as u64) + spec_u32_to_le_bytes(
        stored_reason(b.reason@).len() as u32,
    ) + stored_reason(b.reason@)
}

/// Whether a stored ban entry can be read: a 17-byte key, and a value holding its 20-byte
/// header and the UTF-8 reason the header announces.
pub open spec fn ban_readable(key: Seq<u8>, bytes: Seq<u8>) -> bool {
    &&& key.len() == 17
    &&& bytes.len() >= 20
    &&& 20 + spec_u32_from_le_bytes(bytes.subrange(16, 20)) <= bytes.len()
    &&& valid_utf8(bytes.subrange(20, 20 + spec_u32_from_le_bytes(bytes.subrange(16, 20))))
}

/// The ban an entry reads as: the subnet from the key, the times and reason from the value.
pub open spec fn reads_as_ban(key: Seq<u8>, bytes: Seq<u8>, b: BanRecord) -> bool {
    &&& b.subnet@ == key
    &&& spec_u64_to_le_bytes(b.created as u64) == bytes.subrange(0, 8)
    &&& spec_u64_to_le_bytes(b.until as u64) == bytes.subrange(8, 16)
    &&& b.reason@ == decode_utf8(bytes.subrange(20, 20 + spec_u32_from_le_bytes(bytes.subrange(16, 20))))
}

/// `String::from_utf8`: the bytes as a string when they are UTF-8.
#[verifier::external_body]
fn string_from_utf8(bytes: Vec<u8>) -> (r: Option<String>)
    ensures
        r is Some <==> valid_utf8(bytes@),
        r is Some ==> r->Some_0@ == decode_utf8(bytes@),
{
    String::from_utf8(bytes).ok()
}

impl BanRecord {
    /// A field-for-field copy.
    pub fn copy(&self) -> (r: BanRecord)
        ensures
            r == *self,
    {
        BanRecord { subnet: self.subnet, created: self.created, until: self.until, reason: self.reason.clone() }
    }

    pub fn to_bytes(&self) -> (r: Vec<u8>)
        ensures
            r@ == spec_ban_bytes(*self),
    {
        proof {
            lemma_auto_spec_u64_to_from_le_bytes();
            lemma_auto_spec_u32_to_from_le_bytes();
        }
        let mut bytes = u64_to_le_bytes(self.created as u64);
        bytes.extend_from_slice(u64_to_le_bytes(self.until as u64).as_slice());
        let reason = self.reason.as_str().as_bytes();
        let len: u32 = if reason.len() as u64 <= 0xffff_ffffu64 { reason.len() as u32 } else { 0xffff_ffffu32 };
        bytes.extend_from_slice(u32_to_le_bytes(len).as_slice());
        bytes.extend_from_slice(vstd::slice::slice_subrange(reason, 0, len as usize));
        proof {
            assert(reason@ == vstd::utf8::encode_utf8(self.reason@));
            assert(reason@.subrange(0, len as int) =~= stored_reason(self.reason@));
        }
        bytes
    }

    /// Fails, with a `Corrupted` error, when the key is not 17 bytes, the value is shorter than
    /// its 20-byte header or than the reason it announces, or the reason is not UTF-8. Bytes
    /// after the reason are ignored.
    pub fn from_bytes(key: &[u8], bytes: &[u8]) -> (r: Result<BanRecord>)
        ensures
            r is Ok <==> ban_readable(key@, bytes@),
            r is Err ==> r->Err_0 is Corrupted,
            r is Ok ==> reads_as_ban(key@, bytes@, r->Ok_0),
    {
        proof {
            lemma_auto_spec_u64_to_from_le_bytes();
            lemma_auto_spec_u32_to_from_le_bytes();
        }
        if key.len() != 17 {
            return Err(StorageError::corrupted("ban record", "invalid key".to_owned()));
        }
        let mut subnet = [0u8; 17];
        let mut i: usize = 0;
        while i < 17
            invariant
                i <= 17,
                key@.len() == 17,
                forall|j: int| 0 <= j < i ==> subnet@[j] == key@[j],
            decreases 17 - i,
        {
            subnet.set(i, key[i]);
            i = i + 1;
        }
        if bytes.len() < 20 {
            return Err(StorageError::corrupted("ban record", "shorter than its header".to_owned()));
        }
        let created = u64_from_le_bytes(vstd::slice::slice_subrange(bytes, 0, 8));
        let until = u64_from_le_bytes(vstd::slice::slice_subrange(bytes, 8, 16));
        let len = u32_from_le_bytes(vstd::slice::slice_subrange(bytes, 16, 20));
        if ((bytes.len() - 20) as u64) < len as u64 {
            return Err(StorageError::corrupted("ban record", "reason is truncated".to_owned()));
        }
        let reason_bytes = copy_bytes(vstd::slice::slice_subrange(bytes, 20, 20 + len as usize));
        let reason = match string_from_utf8(reason_bytes) {
            Some(s) => s,
            None => return Err(StorageError::corrupted("ban record", "reason is not valid UTF-8".to_owned())),
        };
        proof {
            assert(subnet@ =~= key@);
            lemma_u64_bits(created);
            lemma_u64_bits(until);
        }
        Ok(BanRecord {
            subnet,
            created: #[verifier::truncate] (created as i64),
            until: #[verifier::truncate] (until as i64),
            reason,
        })
    }
}

/// The writes that file address records under their addresses.
pub open spec fn address_puts(records: Seq<AddressRecord>) -> Seq<WriteView> {
    records.map_values(|a: AddressRecord| WriteView::Put("addresses"@, spec_address_key(a.addr), spec_record_bytes(a)))
}

/// The writes that drop the records of some addresses.
pub open spec fn address_deletes(addrs: Seq<PeerAddr>) -> Seq<WriteView> {
    addrs.map_values(|a: PeerAddr| WriteView::Delete("addresses"@, spec_address_key(a)))
}

/// Known peer addresses, in the `addresses` table of a database.
pub struct AddressStore<D: Database> {
    db: D,
}

impl<D: Database> AddressStore<D> {
    pub closed spec fn spec_db(&self) -> D {
        self.db
    }

    pub fn new(db: D) -> (r: AddressStore<D>)
        ensures
            r.spec_db() == db,
    {
        AddressStore { db }
    }

    /// Files every record under its address, in one commit.
    pub fn put_many(&mut self, records: &[AddressRecord]) -> (r: Result<()>)
        ensures
            r is Err ==> r->Err_0 is Engine && final(self).spec_db().contents() == old(self).spec_db().contents(),
            r is Ok ==> final(self).spec_db().contents() == apply_all(old(self).spec_db().contents(), address_puts(records@)),
    {
        let mut batch = Batch::new();
        let mut i: usize = 0;
        while i < records.len()
            invariant
                i <= records@.len(),
                batch.writes() == address_puts(records@.take(i as int)),
            decreases records@.len() - i,
        {
            batch.put_raw("addresses", records[i].key(), records[i].to_bytes());
            proof {
                assert(address_puts(records@.take(i + 1)) =~= address_puts(records@.take(i as int)).push(
                    WriteView::Put("addresses"@, spec_address_key(records@[i as int].addr), spec_record_bytes(records@[i as int])),
                ));
            }
            i = i + 1;
        }
        proof {
            assert(records@.take(records@.len() as int) =~= records@);
        }
        self.db.commit(batch)
    }

    /// Drops the records of some addresses, in one commit.
    pub fn delete_many(&mut self, addrs: &[PeerAddr]) -> (r: Result<()>)
        ensures
            r is Err ==> r->Err_0 is Engine && final(self).spec_db().contents() == old(self).spec_db().contents(),
            r is Ok ==> final(self).spec_db().contents() == apply_all(old(self).spec_db().contents(), address_deletes(addrs@)),
    {
        let mut batch = Batch::new();
        let mut i: usize = 0;
        while i < addrs.len()
            invariant
                i <= addrs@.len(),
                batch.writes() == address_deletes(addrs@.take(i as int)),
            decreases addrs@.len() - i,
        {
            batch.delete_raw("addresses", address_key(addrs[i]));
            proof {
                assert(address_deletes(addrs@.take(i + 1)) =~= address_deletes(addrs@.take(i as int)).push(
                    WriteView::Delete("addresses"@, spec_address_key(addrs@[i as int])),
                ));
            }
            i = i + 1;
        }
        proof {
            assert(addrs@.take(addrs@.len() as int) =~= addrs@);
        }
        self.db.commit(batch)
    }

    /// Every stored record, in key order. Fails with `Corrupted` only where an entry cannot be
    /// read.
    pub fn load_all(&self) -> (r: Result<Vec<AddressRecord>>)
        ensures
            r matches Err(e) ==> e is Engine || (e is Corrupted && exists|k: Seq<u8>|
                #[trigger] self.spec_db().contents().contains_key(("addresses"@, k)) && !address_readable(
                    k,
                    self.spec_db().contents()[("addresses"@, k)],
                )),
            r is Ok ==> exists|s: Seq<(Seq<u8>, Seq<u8>)>|
                {
                    &&& scan_ok(self.spec_db().contents(), "addresses"@, Seq::empty(), s)
                    &&& s.len() == r->Ok_0@.len()
                    &&& forall|i: int| 0 <= i < s.len() ==> reads_as_address(s[i].0, s[i].1, #[trigger] r->Ok_0@[i])
                },
    {
        let none: Vec<u8> = Vec::new();
        let entries = match self.db.scan_raw("addresses", none.as_slice()) {
            Ok(entries) => entries,
            Err(e) => return Err(e),
        };
        let ghost s = pairs_view(entries@);
        let mut out: Vec<AddressRecord> = Vec::new();
        let mut i: usize = 0;
        while i < entries.len()
            invariant
                s == pairs_view(entries@),
                scan_ok(self.db.contents(), "addresses"@, none@, s),
                none@ == Seq::<u8>::empty(),
                i <= entries@.len(),
                out@.len() == i,
                forall|j: int| 0 <= j < i ==> reads_as_address(s[j].0, s[j].1, #[trigger] out@[j]),
            decreases entries@.len() - i,
        {
            proof {
                assert(s[i as int] == (entries@[i as int].0@, entries@[i as int].1@));
            }
            match AddressRecord::from_bytes(entries[i].0.as_slice(), entries[i].1.as_slice()) {
                Ok(a) => out.push(a),
                Err(e) => {
                    proof {
                        let k = s[i as int].0;
                        assert(lookup(self.db.contents(), "addresses"@, k) == Some(s[i as int].1));
                        assert(self.spec_db().contents().contains_key(("addresses"@, k)));
                    }
                    return Err(e);
                },
            }
            i = i + 1;
        }
        proof {
            assert(s.len() == out@.len());
            assert(scan_ok(self.spec_db().contents(), "addresses"@, Seq::<u8>::empty(), s));
        }
        Ok(out)
    }
}

/// Stored bans, in the `bans` table of a database.
pub struct BanStore<D: Database> {
    db: D,
}

impl<D: Database> BanStore<D> {
    pub closed spec fn spec_db(&self) -> D {
        self.db
    }

    pub fn new(db: D) -> (r: BanStore<D>)
        ensures
            r.spec_db() == db,
    {
        BanStore { db }
    }

    /// Files a ban under its subnet.
    pub fn put(&mut self, record: &BanRecord) -> (r: Result<()>)
        ensures
            r is Err ==> r->Err_0 is Engine && final(self).spec_db().contents() == old(self).spec_db().contents(),
            r is Ok ==> final(self).spec_db().contents() == old(self).spec_db().contents().insert(
                ("bans"@, record.subnet@),
                spec_ban_bytes(*record),
            ),
    {
        let mut batch = Batch::new();
        batch.put_raw("bans", copy_bytes(record.subnet.as_slice()), record.to_bytes());
        let ghost c = self.db.contents();
        proof {
            assert(batch.writes().drop_last() =~= Seq::<WriteView>::empty());
            assert(apply_all(c, Seq::<WriteView>::empty()) == c);
        }
        self.db.commit(batch)
    }

    /// Drops the ban of a subnet.
    pub fn delete(&mut self, subnet: &[u8; 17]) -> (r: Result<()>)
        ensures
            r is Err ==> r->Err_0 is Engine && final(self).spec_db().contents() == old(self).spec_db().contents(),
            r is Ok ==> final(self).spec_db().contents() == old(self).spec_db().contents().remove(("bans"@, subnet@)),
    {
        let mut batch = Batch::new();
        batch.delete_raw("bans", copy_bytes(subnet.as_slice()));
        let ghost c = self.db.contents();
        proof {
            assert(batch.writes().drop_last() =~= Seq::<WriteView>::empty());
            assert(apply_all(c, Seq::<WriteView>::empty()) == c);
        }
        self.db.commit(batch)
    }

    /// Every stored ban, in key order. Fails with `Corrupted` only where an entry cannot be
    /// read.
    pub fn load_all(&self) -> (r: Result<Vec<BanRecord>>)
        ensures
            r matches Err(e) ==> e is Engine || (e is Corrupted && exists|k: Seq<u8>|
                #[trigger] self.spec_db().contents().contains_key(("bans"@, k)) && !ban_readable(
                    k,
                    self.spec_db().contents()[("bans"@, k)],
                )),
            r is Ok ==> exists|s: Seq<(Seq<u8>, Seq<u8>)>|
                {
                    &&& scan_ok(self.spec_db().contents(), "bans"@, Seq::empty(), s)
                    &&& s.len() == r->Ok_0@.len()
                    &&& forall|i: int| 0 <= i < s.len() ==> reads_as_ban(s[i].0, s[i].1, #[trigger] r->Ok_0@[i])
                },
    {
        let none: Vec<u8> = Vec::new();
        let entries = match self.db.scan_raw("bans", none.as_slice()) {
            Ok(entries) => entries,
            Err(e) => return Err(e),
        };
        let ghost s = pairs_view(entries@);
        let mut out: Vec<BanRecord> = Vec::new();
        let mut i: usize = 0;
        while i < entries.len()
            invariant
                s == pairs_view(entries@),
                scan_ok(self.db.contents(), "bans"@, none@, s),
                none@ == Seq::<u8>::empty(),
                i <= entries@.len(),
                out@.len() == i,
                forall|j: int| 0 <= j < i ==> reads_as_ban(s[j].0, s[j].1, #[trigger] out@[j]),
            decreases entries@.len() - i,
        {
            proof {
                assert(s[i as int] == (entries@[i as int].0@, entries@[i as int].1@));
            }
            match BanRecord::from_bytes(entries[i].0.as_slice(), entries[i].1.as_slice()) {
                Ok(b) => out.push(b),
                Err(e) => {
                    proof {
                        let k = s[i as int].0;
                        assert(lookup(self.db.contents(), "bans"@, k) == Some(s[i as int].1));
                        assert(self.spec_db().contents().contains_key(("bans"@, k)));
                    }
                    return Err(e);
                },
            }
            i = i + 1;
        }
        proof {
            assert(s.len() == out@.len());
            assert(scan_ok(self.spec_db().contents(), "bans"@, Seq::<u8>::empty(), s));
        }
        Ok(out)
    }
}

} // verus!
