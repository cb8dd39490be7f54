use rust_btcd::net::IpAddress;
use rust_btcd::p2p::addrman::{group_of, AddressManager, Group};
use rust_btcd::p2p::banman::BanManager;
use rust_btcd::p2p::config::P2pConfig;
use rust_btcd::p2p::permissions::{PermissionTable, Permissions, Subnet, SubnetError};
use rust_btcd::p2p::transport::{TransportKind, TransportPolicy};
use rust_btcd::storage::{AddressRecord, BanRecord, PeerAddr};

fn v4(a: u8, b: u8, c: u8, d: u8) -> IpAddress {
    IpAddress::V4(u32::from_be_bytes([a, b, c, d]))
}

fn v6(groups: [u16; 8]) -> IpAddress {
    let mut bits: u128 = 0;
    for g in groups {
        bits = (bits << 16) | g as u128;
    }
    IpAddress::V6(bits)
}

fn addr(a: u8, b: u8) -> PeerAddr {
    PeerAddr { ip: v4(10, a, b, 1), port: 8333 }
}

fn never_banned(_: IpAddress) -> bool {
    false
}

fn select(manager: &AddressManager, feeler: bool, now: i64) -> Option<PeerAddr> {
    manager.select(feeler, now, &[], &[], never_banned)
}

fn subnet(ip: IpAddress, prefix: u8) -> Subnet {
    Subnet::new(ip, Some(prefix)).unwrap()
}

#[test]
fn adds_and_promotes_addresses() {
    let mut manager = AddressManager::new(vec![], 100);
    assert!(manager.add(addr(0, 1), 9, 1000));
    assert!(!manager.add(addr(0, 1), 9, 1100), "second add is not new");
    assert_eq!(manager.len(), 1);
    assert_eq!(manager.tried_count(), 0);

    manager.mark_good(addr(0, 1), 9, 1200);
    assert_eq!(manager.tried_count(), 1);
    assert!(select(&manager, true, 1300).is_none(), "feelers skip tried addresses");
    assert_eq!(select(&manager, false, 1300), Some(addr(0, 1)));
}

#[test]
fn backs_off_after_failures() {
    let mut manager = AddressManager::new(vec![], 100);
    manager.add(addr(0, 1), 0, 1000);
    manager.mark_failed(addr(0, 1), 1000);

    assert_eq!(select(&manager, false, 1030), None, "still backing off");
    assert_eq!(select(&manager, false, 1200), Some(addr(0, 1)));
}

#[test]
fn skips_addresses_in_use_banned_or_in_a_used_group() {
    let mut manager = AddressManager::new(vec![], 100);
    manager.add(addr(0, 1), 0, 1000);

    let in_use = [addr(0, 1)];
    let empty_groups: [Group; 0] = [];
    assert_eq!(manager.select(false, 1000, &in_use, &empty_groups, never_banned), None);

    let groups = [group_of(addr(0, 1).ip)];
    assert_eq!(manager.select(false, 1000, &[], &groups, never_banned), None);
    assert_eq!(manager.select(false, 1000, &[], &empty_groups, |_| true), None);
}

#[test]
fn groups_ignore_the_low_bits() {
    assert_eq!(group_of(addr(0, 1).ip), group_of(addr(0, 250).ip));
    assert_ne!(group_of(addr(0, 1).ip), group_of(addr(9, 1).ip));
    let v6_a = v6([0x2001, 0xdb8, 0, 0, 0, 0, 0, 1]);
    let same = v6([0x2001, 0xdb8, 0xffff, 0, 0, 0, 0, 9]);
    assert_eq!(group_of(v6_a), group_of(same));
}

#[test]
fn mapped_addresses_group_with_their_ipv4_form() {
    let mapped = IpAddress::V6(0xffff_0a00_0101);
    assert_eq!(group_of(mapped), group_of(v4(10, 0, 1, 1)));
    assert_eq!(group_of(v4(10, 0, 1, 1)), Group { family: 4, prefix: 0x0a00 });
}

#[test]
fn evicts_untried_addresses_when_full_and_keeps_tried_ones() {
    let mut manager = AddressManager::new(vec![], 2);
    manager.add(addr(0, 1), 0, 1000);
    manager.add(addr(1, 1), 0, 2000);
    manager.mark_good(addr(1, 1), 0, 2000);

    assert!(manager.add(addr(2, 1), 0, 3000), "evicts the oldest untried address");
    assert_eq!(manager.len(), 2);
    assert_eq!(manager.take_removed(), vec![addr(0, 1)]);
    assert_eq!(manager.tried_count(), 1);
}

#[test]
fn a_full_book_of_tried_addresses_refuses_new_ones() {
    let mut manager = AddressManager::new(vec![], 1);
    manager.add(addr(0, 1), 0, 1000);
    manager.mark_good(addr(0, 1), 0, 1000);
    assert!(!manager.add(addr(2, 1), 0, 3000));
    assert_eq!(manager.len(), 1);
    assert!(manager.take_removed().is_empty());
}

#[test]
fn tracks_changes_for_persistence() {
    let mut manager = AddressManager::new(vec![], 100);
    manager.add(addr(0, 1), 0, 1000);
    assert_eq!(manager.take_dirty().len(), 1);
    assert!(manager.take_dirty().is_empty(), "taken changes are cleared");

    manager.mark_attempt(addr(0, 1), 1100);
    let dirty = manager.take_dirty();
    assert_eq!(dirty.len(), 1);
    assert_eq!(dirty[0].last_try, 1100);
}

#[test]
fn rejects_unusable_addresses() {
    let mut manager = AddressManager::new(vec![], 100);
    assert!(!manager.add(PeerAddr { ip: v4(10, 0, 0, 1), port: 0 }, 0, 1000));
    assert!(!manager.add(PeerAddr { ip: v4(0, 0, 0, 0), port: 8333 }, 0, 1000));
    assert!(manager.is_empty());
}

#[test]
fn stored_records_are_loaded_by_address() {
    let mut first = AddressRecord::new(addr(0, 1), 9, 1000);
    first.tried = true;
    let second = AddressRecord::new(addr(0, 2), 1, 2000);
    let manager = AddressManager::new(vec![first, second], 0);
    assert_eq!(manager.len(), 2);
    assert_eq!(manager.tried_count(), 1);
}

fn manager() -> BanManager {
    BanManager::new(vec![], vec![subnet(v4(192, 168, 0, 0), 16)], 100, 50)
}

#[test]
fn configured_bans_apply_without_storage() {
    let bans = manager();
    assert!(bans.is_banned(v4(192, 168, 1, 1), 0));
    assert!(!bans.is_banned(v4(10, 0, 0, 1), 0));
    assert!(bans.list().is_empty(), "configured bans are not stored");
}

#[test]
fn bans_expire_and_are_deleted() {
    let mut bans = manager();
    bans.ban(subnet(v4(10, 0, 0, 0), 8), "manual".to_string(), 1000, None);
    assert!(bans.is_banned(v4(10, 1, 1, 1), 1000));
    assert_eq!(bans.take_dirty().len(), 1);

    assert!(!bans.is_banned(v4(10, 1, 1, 1), 1101), "expired");
    bans.sweep(1101);
    assert_eq!(bans.take_removed().len(), 1);
    assert!(bans.list().is_empty());
}

#[test]
fn unban_removes_a_ban() {
    let mut bans = manager();
    let net = subnet(v4(10, 0, 0, 0), 8);
    bans.ban(net, "manual".to_string(), 1000, Some(10_000));
    assert!(bans.unban(net));
    assert!(!bans.unban(net), "already gone");
    assert!(!bans.is_banned(v4(10, 1, 1, 1), 1000));
}

#[test]
fn discouragement_is_temporary_and_not_stored() {
    let mut bans = manager();
    bans.discourage(v4(8, 8, 8, 8), 1000);
    assert!(bans.is_discouraged(v4(8, 8, 8, 8), 1000));
    assert!(bans.is_blocked(v4(8, 8, 8, 8), 1000));
    assert!(bans.take_dirty().is_empty(), "discouragement is memory only");

    assert!(!bans.is_discouraged(v4(8, 8, 8, 8), 1051), "expired");
    bans.sweep(1051);
    assert!(!bans.is_blocked(v4(8, 8, 8, 8), 1051));
}

#[test]
fn stored_bans_are_loaded_and_cleared() {
    let net = subnet(v4(10, 0, 0, 0), 8);
    let record = BanRecord { subnet: net.to_bytes(), created: 5, until: 500, reason: "stored".to_string() };
    let long_prefix = BanRecord { subnet: [0xff; 17], created: 5, until: 50, reason: "odd".to_string() };
    let mut bans = BanManager::new(vec![record.clone(), long_prefix.clone()], vec![], 100, 50);
    let listed = bans.list();
    assert_eq!(listed.len(), 2);
    assert!(listed.contains(&record) && listed.contains(&long_prefix));
    assert!(!bans.checkable(10), "a ban in force with a 255-bit prefix cannot be matched");
    assert!(bans.checkable(100), "that ban has expired by then");
    assert!(bans.is_banned(v4(10, 2, 3, 4), 100));
    bans.clear();
    assert!(bans.list().is_empty());
    let mut removed = bans.take_removed();
    removed.sort();
    assert_eq!(removed, vec![net.to_bytes(), [0xff; 17]]);
}

#[test]
fn ban_durations_saturate() {
    let mut bans = manager();
    let net = subnet(v4(1, 2, 3, 4), 32);
    bans.ban(net, "forever".to_string(), i64::MAX - 1, Some(10));
    assert_eq!(bans.list()[0].until, i64::MAX);
}

#[test]
fn subnet_matching() {
    let net = subnet(v4(10, 0, 0, 0), 8);
    assert!(net.contains(v4(10, 1, 2, 3)));
    assert!(!net.contains(v4(11, 0, 0, 1)));

    let host = Subnet::single(v4(127, 0, 0, 1));
    assert!(host.contains(v4(127, 0, 0, 1)));
    assert!(!host.contains(v4(127, 0, 0, 2)));

    let odd = subnet(v4(192, 168, 1, 0), 28);
    assert!(odd.contains(v4(192, 168, 1, 15)));
    assert!(!odd.contains(v4(192, 168, 1, 16)));

    let net6 = subnet(v6([0x2001, 0xdb8, 0, 0, 0, 0, 0, 0]), 32);
    assert!(net6.contains(v6([0x2001, 0xdb8, 1, 0, 0, 0, 0, 1])));
    assert!(!net6.contains(v6([0x2001, 0xdb9, 0, 0, 0, 0, 0, 1])));
}

#[test]
fn subnet_bytes_roundtrip() {
    for net in [
        subnet(v4(10, 0, 0, 0), 8),
        Subnet::single(v4(127, 0, 0, 1)),
        subnet(v6([0x2001, 0xdb8, 0, 0, 0, 0, 0, 0]), 32),
    ] {
        assert_eq!(Subnet::from_bytes(&net.to_bytes()), Some(net));
    }
    let bytes = subnet(v4(10, 0, 0, 0), 8).to_bytes();
    assert_eq!(&bytes[..12], &[0, 0, 0, 0, 0, 0, 0, 0, 0, 0, 0xff, 0xff]);
    assert_eq!(bytes[12], 10);
    assert_eq!(bytes[16], 104);
    assert_eq!(Subnet::from_bytes(&bytes[..16]), None);
}

#[test]
fn subnet_rejects_long_prefixes() {
    assert_eq!(Subnet::new(v4(10, 0, 0, 0), Some(33)), Err(SubnetError::PrefixTooLong));
    assert_eq!(Subnet::new(v6([0; 8]), Some(129)), Err(SubnetError::PrefixTooLong));
    assert_eq!(Subnet::new(v4(10, 0, 0, 0), None).unwrap(), Subnet::single(v4(10, 0, 0, 0)));
}

#[test]
fn permissions_from_config() {
    let mut table = PermissionTable::new();
    table.grant(Subnet::single(v4(127, 0, 0, 1)), Permissions::parse_flag("noban").unwrap());
    let mut lan = Permissions::parse_flag("download").unwrap();
    lan.insert(Permissions::parse_flag(" addr ").unwrap());
    table.grant(subnet(v4(10, 0, 0, 0), 8), lan);

    let local = table.for_peer(v4(127, 0, 0, 1));
    assert!(local.contains(Permissions::no_ban()));
    assert!(!local.contains(Permissions::download()));

    let lan = table.for_peer(v4(10, 1, 1, 1));
    assert!(lan.contains(Permissions::download()));
    assert!(lan.contains(Permissions::addr()));
    assert!(!lan.contains(Permissions::no_ban()));

    let other = table.for_peer(v4(8, 8, 8, 8));
    assert_eq!(other, Permissions::none());
}

#[test]
fn unknown_flags_are_refused() {
    assert_eq!(Permissions::parse_flag("nosuchflag"), None);
    assert_eq!(Permissions::parse_flag("bloomfilter").unwrap().bits(), 64);
    assert_eq!(Permissions::parse_flag("forcerelay"), Some(Permissions::force_relay()));
}

#[test]
fn default_settings() {
    let config = P2pConfig::default();
    assert_eq!(config.user_agent, "/rust-btcd:0.1.0/");
    assert_eq!(TransportKind::V1.name(), "v1");
    let _ = TransportPolicy::default();
}

#[test]
fn flags_are_read_without_the_whitespace_around_them() {
    assert_eq!(Permissions::parse_flag("\u{3000}noban\t").map(|p| p.bits()), Some(1));
    assert_eq!(Permissions::parse_flag(" bloomfilter\n").map(|p| p.bits()), Some(64));
    assert!(Permissions::parse_flag("no ban").is_none());
}

#[test]
fn subnet_bytes_with_a_long_prefix_still_read() {
    let mut bytes = [0u8; 17];
    bytes[15] = 1;
    bytes[16] = 200;
    let subnet = Subnet::from_bytes(&bytes).expect("17 bytes are a subnet");
    assert_eq!(subnet.prefix(), 200);
    assert_eq!(subnet.to_bytes(), bytes);
    assert_eq!(Subnet::from_bytes(&bytes[..16]), None);
}
