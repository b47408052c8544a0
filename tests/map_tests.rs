use vroom::error::FtlError;
use vroom::map::{ZNSMap, ZNS_MAP_UNMAPPED};

#[test]
fn map_init_is_unmapped_and_valid() {
    let m = ZNSMap::init(8, 16);
    for l in 0..8 {
        assert_eq!(m.lookup(l), ZNS_MAP_UNMAPPED);
    }
    for p in 0..16 {
        assert!(!m.check_invalid(p));
    }
    assert_eq!(m.count_mapped(0, 8), 0);
}

#[test]
fn map_update_and_count() {
    let mut m = ZNSMap::init(8, 16);
    m.update(3, 9);
    assert_eq!(m.lookup(3), 9);
    assert_eq!(m.count_mapped(0, 8), 1);
    m.update_len(4, 10, 3);
    assert_eq!(m.lookup(4), 10);
    assert_eq!(m.lookup(5), 11);
    assert_eq!(m.lookup(6), 12);
    assert_eq!(m.count_mapped(0, 8), 4);
    assert_eq!(m.count_mapped(4, 2), 2);
}

#[test]
fn map_contiguous_physical_runs() {
    let mut m = ZNSMap::init(8, 16);
    m.update_len(0, 4, 3);
    m.update(3, 12);
    assert_eq!(m.lookup_contiguous_physical(0, 4), Ok(3));
    assert_eq!(m.lookup_contiguous_physical(0, 2), Ok(2));
    assert_eq!(m.lookup_contiguous_physical(3, 1), Ok(1));
    assert_eq!(m.lookup_contiguous_physical(0, 0), Ok(1));
    // An unmapped block before the run breaks.
    assert_eq!(m.lookup_contiguous_physical(3, 2), Err(FtlError::NotMapped));
    assert_eq!(m.lookup_contiguous_physical(5, 1), Err(FtlError::NotMapped));
}

#[test]
fn map_contiguous_mapping_runs() {
    let mut m = ZNSMap::init(8, 16);
    m.update_len(2, 0, 3);
    assert_eq!(m.lookup_contiguous_map(0, 8), 2);
    assert_eq!(m.lookup_contiguous_map(2, 6), 3);
    assert_eq!(m.lookup_contiguous_map(2, 2), 2);
    assert_eq!(m.lookup_contiguous_map(5, 3), 3);
}

#[test]
fn map_invalid_bits() {
    let mut m = ZNSMap::init(4, 16);
    m.mark_invalid(2);
    assert!(m.check_invalid(2));
    m.mark_invalid_len(5, 3);
    assert!(m.check_invalid(5) && m.check_invalid(7) && !m.check_invalid(8));
    assert_eq!(m.lookup_contiguous_valid(0, 16), 2);
    assert_eq!(m.lookup_contiguous_invalid(5, 10), 3);
    assert_eq!(m.lookup_contiguous_invalid(0, 10), 0);
    assert_eq!(m.lookup_contiguous_valid(3, 2), 2);
    m.clear_invalid_len(5, 2);
    assert!(!m.check_invalid(5) && !m.check_invalid(6) && m.check_invalid(7));
}

#[test]
fn map_remap_moves_blocks() {
    let mut m = ZNSMap::init(4, 16);
    m.update(0, 2);
    m.update(1, 3);
    m.mark_invalid(4);
    m.remap(2, 10, 2);
    assert_eq!(m.lookup(0), 10);
    assert_eq!(m.lookup(1), 11);
    assert!(!m.check_invalid(2) && !m.check_invalid(10));
    assert!(m.check_invalid(4));
    // The moved blocks point back to their logical blocks.
    m.remap(10, 0, 2);
    assert_eq!(m.lookup(0), 0);
    assert_eq!(m.lookup(1), 1);
}
