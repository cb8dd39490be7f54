use rust_btcd::net::IpAddress;
use rust_btcd::storage::db::table::Profile;
use rust_btcd::storage::network::{AddressStore, BanStore};
use rust_btcd::storage::{AddressRecord, BanRecord, MemoryDb, PeerAddr};

fn network_db() -> MemoryDb {
    MemoryDb::new(&[("addresses", Profile::PointLookup), ("bans", Profile::PointLookup)])
}

fn addr(last: u8, port: u16) -> PeerAddr {
    PeerAddr { ip: IpAddress::V4(u32::from_be_bytes([10, 0, 0, last])), port }
}

#[test]
fn address_roundtrip_through_the_database() {
    let mut store = AddressStore::new(network_db());

    let mut first = AddressRecord::new(addr(1, 8333), 9, 1000);
    first.tried = true;
    first.attempts = 3;
    first.last_success = 1234;
    let v6: u128 = 0x2001_0db8_0000_0000_0000_0000_0000_0001;
    let second = AddressRecord::new(PeerAddr { ip: IpAddress::V6(v6), port: 8333 }, 1, 2000);

    store.put_many(&[first, second]).unwrap();
    let mut loaded = store.load_all().unwrap();
    loaded.sort_by_key(|r| r.last_seen);
    assert_eq!(loaded, vec![first, second]);

    store.delete_many(&[first.addr]).unwrap();
    assert_eq!(store.load_all().unwrap(), vec![second]);
}

#[test]
fn ban_roundtrip_through_the_database() {
    let mut store = BanStore::new(network_db());
    let record = BanRecord { subnet: [7u8; 17], created: 100, until: 200, reason: "manual".to_string() };

    store.put(&record).unwrap();
    assert_eq!(store.load_all().unwrap(), vec![record.clone()]);

    store.delete(&record.subnet).unwrap();
    assert!(store.load_all().unwrap().is_empty());
}
