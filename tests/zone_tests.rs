use vroom::error::FtlError;
use vroom::zones::{MapperZone, MapperZoneMetadata, ZNSZones};

#[test]
fn zone_write_pointer() {
    let mut z = MapperZone::new(100, 10);
    assert_eq!(z.wp, 100);
    assert!(!z.is_full());
    assert_eq!(z.incr_wp(4), Ok(()));
    assert_eq!(z.wp, 104);
    assert_eq!(z.incr_wp(7), Err(FtlError::Fatal));
    assert_eq!(z.wp, 104);
    assert_eq!(z.incr_wp(6), Ok(()));
    assert!(z.is_full());
    z.reset();
    assert_eq!(z.wp, 100);
    assert_eq!(z.zone_cap, 10);
}

#[test]
fn zone_metadata_counters() {
    let mut m = MapperZoneMetadata { invalid_blocks: 3, zone_age: 7 };
    m.incr_invalid_blocks(5);
    assert_eq!(m.invalid_blocks, 8);
    assert_eq!(m.zone_age, 7);
    m.reset();
    assert_eq!(m.invalid_blocks, 0);
    assert_eq!(m.zone_age, 0);
}

#[test]
fn zones_init_and_find() {
    let caps = vec![6, 7, 8, 8];
    let mut zones = ZNSZones::init(8, &caps, 3);
    assert_eq!(zones.free_len(), 3);
    assert_eq!(zones.op_len(), 1);
    assert_eq!(zones.full_len(), 0);
    let z = zones.find_zone(16).unwrap();
    assert_eq!((z.zslba, z.zone_cap, z.wp), (16, 8, 16));
    // Reserve zones are not searched.
    assert!(matches!(zones.find_zone(24), Err(FtlError::ZoneNotFound)));
    assert!(matches!(zones.find_zone(5), Err(FtlError::ZoneNotFound)));
    zones.find_zone_mut(8).unwrap().wp = 10;
    assert_eq!(zones.zone(1).wp, 10);
}

#[test]
fn zones_pop_and_park() {
    let caps = vec![4, 4, 4];
    let mut zones = ZNSZones::init(4, &caps, 2);
    assert_eq!(zones.pop_free(), Some(1));
    assert_eq!(zones.pop_free(), Some(0));
    assert_eq!(zones.pop_free(), None);
    assert_eq!(zones.pop_op(), Some(2));
    assert_eq!(zones.open_index(0), Some(1));
    zones.zone_incr_wp(0, 4);
    zones.park(1, vroom::zones::ZonePool::Full);
    assert_eq!(zones.full_len(), 1);
    assert_eq!(zones.full_at(0), 0);
    assert_eq!(zones.open_index(0), None);
}
