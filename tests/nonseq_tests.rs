use std::collections::HashMap;

use vroom::error::FtlError;
use vroom::nonseq::{ReclaimAction, VictimSelectionMethod, WriteAction, ZNSTarget};
use vroom::nvme::{NvmeNamespace, NvmeZNSInfo};

const BLOCK: u64 = 4096;
const ZONE_SIZE: u64 = 16384;
const ZONE_CAP: u64 = 15872;
const N_ZONES: u64 = 32;

/// A zoned device held in memory: appends land at the zone's write pointer.
struct MemDevice {
    block_size: usize,
    zone_size: u64,
    caps: Vec<u64>,
    wps: Vec<u64>,
    blocks: HashMap<u64, Vec<u8>>,
}

impl MemDevice {
    fn new(block_size: u64, zone_size: u64, caps: Vec<u64>) -> MemDevice {
        let wps = (0..caps.len() as u64).map(|z| z * zone_size).collect();
        MemDevice { block_size: block_size as usize, zone_size, caps, wps, blocks: HashMap::new() }
    }

    fn append(&mut self, zslba: u64, data: &[u8]) -> Result<u64, FtlError> {
        let z = (zslba / self.zone_size) as usize;
        let n = ((data.len() + self.block_size - 1) / self.block_size) as u64;
        let d = self.wps[z];
        if d + n > zslba + self.caps[z] {
            return Err(FtlError::ZoneFull);
        }
        for i in 0..n as usize {
            let lo = i * self.block_size;
            let hi = std::cmp::min(lo + self.block_size, data.len());
            let mut block = data[lo..hi].to_vec();
            block.resize(self.block_size, 0);
            self.blocks.insert(d + i as u64, block);
        }
        self.wps[z] = d + n;
        Ok(d)
    }

    fn read(&self, d: u64, out: &mut [u8]) {
        for (i, chunk) in out.chunks_mut(self.block_size).enumerate() {
            let block = &self.blocks[&(d + i as u64)];
            chunk.copy_from_slice(&block[..chunk.len()]);
        }
    }

    fn reset(&mut self, zslba: u64) {
        let z = (zslba / self.zone_size) as usize;
        for p in zslba..self.wps[z] {
            self.blocks.remove(&p);
        }
        self.wps[z] = zslba;
    }

    fn zones_written(&self) -> usize {
        (0..self.wps.len()).filter(|&z| self.wps[z] != z as u64 * self.zone_size).count()
    }
}

fn namespace(block_size: u64, zone_size: u64, n_zones: u64) -> NvmeNamespace {
    NvmeNamespace {
        id: 1,
        blocks: zone_size * n_zones,
        block_size,
        flba_idx: 0,
        zns_info: Some(NvmeZNSInfo { zone_size, n_zones }),
    }
}

fn setup(exposed: u64) -> (ZNSTarget, MemDevice) {
    let caps = vec![ZONE_CAP; N_ZONES as usize];
    let target = ZNSTarget::init(namespace(BLOCK, ZONE_SIZE, N_ZONES), &caps, exposed, VictimSelectionMethod::InvalidBlocks)
        .unwrap();
    (target, MemDevice::new(BLOCK, ZONE_SIZE, caps))
}

fn reclaim_once(t: &mut ZNSTarget, dev: &mut MemDevice) -> Result<bool, FtlError> {
    let mut op = match t.reclaim_begin()? {
        Some(op) => op,
        None => return Ok(false),
    };
    let mut scratch = Vec::new();
    loop {
        match t.reclaim(&mut op)? {
            ReclaimAction::Copy { from, blocks, to_zslba } => {
                scratch.resize((blocks * t.block_size()) as usize, 0);
                dev.read(from, &mut scratch);
                let d = dev.append(to_zslba, &scratch)?;
                t.reclaim_copied(&mut op, d)?;
            }
            ReclaimAction::Reset { zslba } => {
                dev.reset(zslba);
                return Ok(true);
            }
            ReclaimAction::Done => return Ok(true),
        }
    }
}

fn write_copied(t: &mut ZNSTarget, dev: &mut MemDevice, data: &[u8], lba: u64) -> Result<(), FtlError> {
    let mut op = t.write_begin(data.len(), lba)?;
    loop {
        let action = match t.write(&mut op) {
            Ok(a) => a,
            Err(FtlError::NoFreeZones) => {
                if reclaim_once(t, dev)? {
                    continue;
                }
                return Err(FtlError::NoFreeZones);
            }
            Err(e) => return Err(e),
        };
        match action {
            WriteAction::Append { zslba, byte_start, byte_end, .. } => {
                match dev.append(zslba, &data[byte_start..byte_end]) {
                    Ok(d) => t.write_complete(&mut op, d)?,
                    Err(FtlError::ZoneFull) => t.write_zone_full(&mut op)?,
                    Err(e) => {
                        t.write_abort(&mut op);
                        return Err(e);
                    }
                }
            }
            WriteAction::Done => break,
        }
        while reclaim_once(t, dev)? {}
    }
    Ok(())
}

/// A write that never reclaims.
fn write_plain(t: &mut ZNSTarget, dev: &mut MemDevice, data: &[u8], lba: u64) -> Result<(), FtlError> {
    let mut op = t.write_begin(data.len(), lba)?;
    while let WriteAction::Append { zslba, byte_start, byte_end, .. } = t.write(&mut op)? {
        let d = dev.append(zslba, &data[byte_start..byte_end])?;
        t.write_complete(&mut op, d)?;
    }
    Ok(())
}

fn read_copied(t: &ZNSTarget, dev: &MemDevice, out: &mut [u8], lba: u64) -> Result<(), FtlError> {
    let mut op = t.read_begin(out.len(), lba)?;
    while let Some(run) = t.read(&mut op)? {
        dev.read(run.d_lba, &mut out[run.byte_start..run.byte_end]);
    }
    Ok(())
}

#[test]
fn simple_write_then_read() {
    let (mut t, mut dev) = setup(22);
    let a = vec![b'a'; BLOCK as usize * 3];
    let mut read = vec![0u8; BLOCK as usize * 3];
    write_copied(&mut t, &mut dev, &a, 4000).unwrap();
    read_copied(&t, &dev, &mut read, 4000).unwrap();
    assert!(read.iter().all(|&x| x == b'a'));
}

#[test]
fn cross_zone_after_full_zone() {
    let (mut t, mut dev) = setup(22);
    let a = vec![b'a'; BLOCK as usize * 3];
    for _ in 0..ZONE_CAP {
        write_copied(&mut t, &mut dev, &a[..BLOCK as usize], 0).unwrap();
    }
    write_copied(&mut t, &mut dev, &a, 0).unwrap();
    let mut read = vec![0u8; BLOCK as usize * 3];
    read_copied(&t, &dev, &mut read, 0).unwrap();
    assert!(read.iter().all(|&x| x == b'a'));
}

#[test]
fn simple_write_then_read_copied() {
    let (mut t, mut dev) = setup(22);
    let a = vec![b'a'; BLOCK as usize * 3];
    let mut read = vec![0u8; BLOCK as usize * 3];
    write_copied(&mut t, &mut dev, &a, 17).unwrap();
    read_copied(&t, &dev, &mut read, 17).unwrap();
    assert!(read.iter().all(|&x| x == b'a'));
}

#[test]
fn simple_overwrite_then_read() {
    let (mut t, mut dev) = setup(22);
    let a = vec![b'a'; BLOCK as usize];
    let b = vec![b'b'; BLOCK as usize];
    let mut read = vec![0u8; BLOCK as usize];
    write_copied(&mut t, &mut dev, &a, 100).unwrap();
    write_copied(&mut t, &mut dev, &b, 100).unwrap();
    read_copied(&t, &dev, &mut read, 100).unwrap();
    assert!(read.iter().all(|&x| x == b'b'));
}

#[test]
fn overwrite_partial() {
    let (mut t, mut dev) = setup(22);
    let a = vec![b'a'; BLOCK as usize * 3];
    let b = vec![b'b'; BLOCK as usize * 3];
    write_copied(&mut t, &mut dev, &a, 0).unwrap();
    write_copied(&mut t, &mut dev, &b, 2).unwrap();
    write_copied(&mut t, &mut dev, &a, 90000).unwrap();
    let mut read = vec![0u8; BLOCK as usize * 3];
    read_copied(&t, &dev, &mut read, 0).unwrap();
    assert!(read[..2 * BLOCK as usize].iter().all(|&x| x == b'a'));
    assert!(read[2 * BLOCK as usize..].iter().all(|&x| x == b'b'));
}

#[test]
fn cross_zone() {
    let (mut t, mut dev) = setup(22);
    let a = vec![b'a'; BLOCK as usize * 3];
    for _ in 0..ZONE_CAP - 1 {
        write_copied(&mut t, &mut dev, &a[..BLOCK as usize], 0).unwrap();
    }
    write_copied(&mut t, &mut dev, &a, 0).unwrap();
    let mut read = vec![0u8; BLOCK as usize * 3];
    read_copied(&t, &dev, &mut read, 0).unwrap();
    assert!(read.iter().all(|&x| x == b'a'));
}

#[test]
fn sequential_reclaim_one_writer() {
    let (mut t, mut dev) = setup(22);
    let len = (ZONE_CAP * BLOCK) as usize;
    for c in b'a'..b'z' {
        let data = vec![c; len];
        write_copied(&mut t, &mut dev, &data, 0).unwrap();
    }
    let mut read = vec![0u8; len];
    read_copied(&t, &dev, &mut read, 0).unwrap();
    assert!(read.iter().all(|&x| x == b'y'));
    assert_eq!(dev.zones_written(), 22 / 2 - 1);
}

#[test]
fn sequential_partial_reclaim() {
    let (mut t, mut dev) = setup(12);
    let x = vec![b'X'; 8192];
    for c in b'a'..b'z' {
        let data = vec![c; 8192];
        for _ in 0..5000 {
            write_copied(&mut t, &mut dev, &data, 0).unwrap();
        }
        write_copied(&mut t, &mut dev, &x, 50000).unwrap();
    }
    let mut read = vec![0u8; 8192];
    read_copied(&t, &dev, &mut read, 0).unwrap();
    assert!(read.iter().all(|&v| v == b'y'));
    read_copied(&t, &dev, &mut read, 50000).unwrap();
    assert!(read.iter().all(|&v| v == b'X'));
}

fn small_setup(exposed: u64) -> (ZNSTarget, MemDevice) {
    // Four zones of eight blocks, six writable, blocks of 16 bytes.
    let caps = vec![6; 4];
    let target = ZNSTarget::init(namespace(16, 8, 4), &caps, exposed, VictimSelectionMethod::InvalidBlocks).unwrap();
    (target, MemDevice::new(16, 8, caps))
}

#[test]
fn init_rejects_bad_parameters() {
    let caps = vec![ZONE_CAP; N_ZONES as usize];
    let ns = namespace(BLOCK, ZONE_SIZE, N_ZONES);
    let lru = || VictimSelectionMethod::InvalidBlocks;
    assert!(matches!(ZNSTarget::init(ns, &caps, 0, lru()), Err(FtlError::InvalidParam)));
    assert!(matches!(ZNSTarget::init(ns, &caps, 33, lru()), Err(FtlError::InvalidParam)));
    assert!(matches!(ZNSTarget::init(ns, &caps[..5].to_vec(), 3, lru()), Err(FtlError::InvalidParam)));
    let mut big = caps.clone();
    big[3] = ZONE_SIZE + 1;
    assert!(matches!(ZNSTarget::init(ns, &big, 3, lru()), Err(FtlError::InvalidParam)));
    let plain = NvmeNamespace { zns_info: None, ..ns };
    assert!(matches!(ZNSTarget::init(plain, &caps, 3, lru()), Err(FtlError::InvalidParam)));
    let t = ZNSTarget::init(ns, &caps, 22, lru()).unwrap();
    assert_eq!(t.max_lba(), 22 * ZONE_SIZE - 1);
    assert_eq!(t.exposed_zones(), 22);
    assert_eq!(t.free_zone_count(), 22);
}

#[test]
fn out_of_bounds_and_unmapped() {
    let (mut t, mut dev) = setup(22);
    let max = t.max_lba();
    let a = vec![b'a'; BLOCK as usize * 2];
    assert!(matches!(t.write_begin(a.len(), max - 1), Err(FtlError::OutOfBounds)));
    assert!(t.write_begin(a.len(), max - 2).is_ok());
    assert!(matches!(t.read_begin(4097, max - 1), Err(FtlError::OutOfBounds)));
    let mut read = vec![0u8; BLOCK as usize];
    assert_eq!(read_copied(&t, &dev, &mut read, 5), Err(FtlError::NotMapped));
    write_copied(&mut t, &mut dev, &a, 5).unwrap();
    let mut three = vec![0u8; BLOCK as usize * 3];
    assert_eq!(read_copied(&t, &dev, &mut three, 5), Err(FtlError::NotMapped));
    read_copied(&t, &dev, &mut three[..2 * BLOCK as usize], 5).unwrap();
}

#[test]
fn write_splits_at_zone_capacity() {
    let (mut t, _dev) = small_setup(3);
    let mut op = t.write_begin(16 * 10, 0).unwrap();
    let mut appends = Vec::new();
    let mut d = 16;
    loop {
        match t.write(&mut op).unwrap() {
            WriteAction::Append { zslba, offset, blocks, byte_start, byte_end } => {
                appends.push((zslba, offset, blocks, byte_start, byte_end));
                t.write_complete(&mut op, d).unwrap();
                d = 8;
            }
            WriteAction::Done => break,
        }
    }
    // The last free zone takes six blocks and fills; the next one takes the rest.
    assert_eq!(appends, vec![(16, 0, 6, 0, 96), (8, 6, 4, 96, 160)]);
    assert_eq!(t.full_zone_count(), 1);
    assert_eq!(t.lookup(0), 16);
    assert_eq!(t.lookup(9), 11);
}

#[test]
fn write_filling_zone_parks_it_full() {
    let (mut t, mut dev) = small_setup(3);
    write_copied(&mut t, &mut dev, &vec![b'a'; 16 * 5], 0).unwrap();
    assert_eq!(t.full_zone_count(), 0);
    write_copied(&mut t, &mut dev, &vec![b'b'; 16], 7).unwrap();
    assert_eq!(t.full_zone_count(), 1);
    assert_eq!(t.zone(2).wp, 16 + 6);
}

#[test]
fn bad_completion_is_refused() {
    let (mut t, _dev) = small_setup(3);
    let mut op = t.write_begin(32, 0).unwrap();
    assert!(matches!(t.write_complete(&mut op, 16), Err(FtlError::Fatal)));
    assert!(matches!(t.write(&mut op), Ok(WriteAction::Append { zslba: 16, offset: 0, blocks: 2, .. })));
    assert!(matches!(t.write(&mut op), Err(FtlError::Fatal)));
    // Past the zone's capacity.
    assert!(matches!(t.write_complete(&mut op, 21), Err(FtlError::Fatal)));
    // Below its write pointer.
    assert!(matches!(t.write_complete(&mut op, 15), Err(FtlError::Fatal)));
    assert!(t.write_complete(&mut op, 17).is_ok());
    // The skipped block is no longer where the write pointer is.
    assert_eq!(t.zone(2).wp, 19);
    assert_eq!(t.lookup(0), 17);
    assert!(op.is_done());
}

#[test]
fn zone_full_retires_zone() {
    let (mut t, _dev) = small_setup(3);
    let mut op = t.write_begin(32, 0).unwrap();
    t.write(&mut op).unwrap();
    t.write_zone_full(&mut op).unwrap();
    assert_eq!(t.full_zone_count(), 1);
    assert_eq!(t.zone(2).wp, 22);
    assert!(matches!(t.write(&mut op), Ok(WriteAction::Append { zslba: 8, offset: 0, blocks: 2, .. })));
    t.write_abort(&mut op);
    assert_eq!(t.free_zone_count(), 2);
}

#[test]
fn no_free_zones_without_reclaim() {
    let (mut t, mut dev) = small_setup(2);
    write_copied(&mut t, &mut dev, &vec![b'a'; 16 * 6], 0).unwrap();
    write_copied(&mut t, &mut dev, &vec![b'b'; 16 * 6], 8).unwrap();
    // Every zone holds live data: reclaim has nothing to gain.
    assert!(!reclaim_once(&mut t, &mut dev).unwrap());
    assert_eq!(write_copied(&mut t, &mut dev, &vec![b'c'; 16], 14), Err(FtlError::NoFreeZones));
}

#[test]
fn lru_victim_selection_is_unsupported() {
    let caps = vec![6; 4];
    let mut t = ZNSTarget::init(namespace(16, 8, 4), &caps, 1, VictimSelectionMethod::LRU).unwrap();
    let mut dev = MemDevice::new(16, 8, caps);
    write_plain(&mut t, &mut dev, &vec![b'a'; 16 * 6], 0).unwrap();
    assert!(matches!(t.pick_victim(), Err(FtlError::Unsupported)));
    assert!(matches!(t.reclaim_begin(), Err(FtlError::Unsupported)));
}

#[test]
fn reclaim_moves_live_blocks() {
    let (mut t, mut dev) = small_setup(2);
    // Zone 1 holds logical 0..6; overwrite 0..4 so two live blocks remain.
    write_plain(&mut t, &mut dev, &vec![b'a'; 16 * 6], 0).unwrap();
    write_plain(&mut t, &mut dev, &vec![b'b'; 16 * 4], 0).unwrap();
    assert_eq!(t.lookup(4), 12);
    assert_eq!(t.pick_victim().unwrap(), Some(0));
    let mut op = t.reclaim_begin().unwrap().unwrap();
    assert_eq!((op.victim(), op.dest()), (1, 3));
    match t.reclaim(&mut op).unwrap() {
        ReclaimAction::Copy { from, blocks, to_zslba } => assert_eq!((from, blocks, to_zslba), (12, 2, 24)),
        _ => panic!("expected a copy"),
    }
    let mut scratch = vec![0u8; 32];
    dev.read(12, &mut scratch);
    let d = dev.append(24, &scratch).unwrap();
    t.reclaim_copied(&mut op, d).unwrap();
    assert_eq!(t.lookup(4), 24);
    assert_eq!(t.lookup(5), 25);
    assert!(matches!(t.reclaim(&mut op).unwrap(), ReclaimAction::Reset { zslba: 8 }));
    dev.reset(8);
    assert_eq!(t.zone(1).wp, 8);
    let mut read = vec![0u8; 16 * 6];
    read_copied(&t, &dev, &mut read, 0).unwrap();
    assert!(read[..64].iter().all(|&x| x == b'b'));
    assert!(read[64..].iter().all(|&x| x == b'a'));
}

#[test]
fn read_across_reclaimed_run() {
    let (mut t, mut dev) = small_setup(2);
    write_plain(&mut t, &mut dev, &vec![b'a'; 16 * 6], 0).unwrap();
    write_plain(&mut t, &mut dev, &vec![b'b'; 16 * 3], 0).unwrap();
    // Start a read, then let reclaim move the tail of the range.
    let mut out = vec![0u8; 16 * 6];
    let mut op = t.read_begin(out.len(), 0).unwrap();
    let run = t.read(&mut op).unwrap().unwrap();
    assert_eq!((run.d_lba, run.blocks), (0, 3));
    dev.read(run.d_lba, &mut out[..48]);
    assert_eq!(t.lookup(3), 11);
    assert!(reclaim_once(&mut t, &mut dev).unwrap());
    assert_eq!(t.lookup(3), 24);
    while let Some(run) = t.read(&mut op).unwrap() {
        dev.read(run.d_lba, &mut out[run.byte_start..run.byte_end]);
    }
    assert!(out[..48].iter().all(|&x| x == b'b'));
    assert!(out[48..].iter().all(|&x| x == b'a'));
}

#[test]
fn mapping_laws_hold_on_example() {
    let (mut t, mut dev) = small_setup(3);
    write_copied(&mut t, &mut dev, &vec![b'a'; 16 * 6], 0).unwrap();
    write_copied(&mut t, &mut dev, &vec![b'b'; 16 * 2], 1).unwrap();
    // Logical blocks map to distinct physical blocks, each in a zone's written part.
    let mut seen = std::collections::HashSet::new();
    for l in 0..6 {
        let p = t.lookup(l);
        assert!(seen.insert(p));
        let z = t.get_zone_number(p);
        let zone = t.zone(z);
        assert!(zone.zslba <= p && p < zone.wp && zone.wp <= zone.zslba + zone.zone_cap);
    }
    let total = t.free_zone_count() + t.full_zone_count();
    assert_eq!(total, 3);
}

#[test]
fn interleaved_reclaim_one_writer() {
    let (mut t, mut dev) = setup(22);
    let x = vec![b'X'; 8192];
    for c in b'a'..b'z' {
        let data = vec![c; 8192];
        for _ in 0..3000 {
            // Plan the append, then let reclaim run before the device completes it.
            let mut op = t.write_begin(data.len(), 0).unwrap();
            loop {
                match t.write(&mut op) {
                    Ok(WriteAction::Append { zslba, byte_start, byte_end, .. }) => {
                        while reclaim_once(&mut t, &mut dev).unwrap() {}
                        let d = dev.append(zslba, &data[byte_start..byte_end]).unwrap();
                        t.write_complete(&mut op, d).unwrap();
                    }
                    Ok(WriteAction::Done) => break,
                    Err(FtlError::NoFreeZones) => assert!(reclaim_once(&mut t, &mut dev).unwrap()),
                    Err(e) => panic!("{:?}", e),
                }
            }
        }
        write_copied(&mut t, &mut dev, &x, 50000).unwrap();
    }
    let mut read = vec![0u8; 8192];
    read_copied(&t, &dev, &mut read, 0).unwrap();
    assert!(read.iter().all(|&v| v == b'y'));
    read_copied(&t, &dev, &mut read, 50000).unwrap();
    assert!(read.iter().all(|&v| v == b'X'));
}

#[test]
fn partial_block_round_trip() {
    let (mut t, mut dev) = small_setup(3);
    let data: Vec<u8> = (0..40u8).collect();
    write_copied(&mut t, &mut dev, &data, 2).unwrap();
    let mut out = vec![0u8; 40];
    read_copied(&t, &dev, &mut out, 2).unwrap();
    assert_eq!(out, data);
    let mut op = t.read_begin(40, 2).unwrap();
    let run = t.read(&mut op).unwrap().unwrap();
    assert_eq!((run.blocks, run.byte_start, run.byte_end), (3, 0, 40));
    assert!(op.is_done());
}

#[test]
fn reclaim_abort_returns_zones() {
    let (mut t, mut dev) = small_setup(2);
    write_plain(&mut t, &mut dev, &vec![b'a'; 16 * 6], 0).unwrap();
    write_plain(&mut t, &mut dev, &vec![b'b'; 16 * 4], 0).unwrap();
    assert!(t.reclaim_is_due());
    let mut op = t.reclaim_begin().unwrap().unwrap();
    assert!(matches!(t.reclaim(&mut op).unwrap(), ReclaimAction::Copy { .. }));
    t.reclaim_abort(&mut op);
    // The victim is full again, the destination back in reserve.
    assert_eq!(t.full_zone_count(), 1);
    assert_eq!(t.free_zone_count(), 1);
    let mut again = t.reclaim_begin().unwrap().unwrap();
    assert_eq!((again.victim(), again.dest()), (1, 3));
    t.reclaim_abort(&mut again);
}

#[test]
fn write_abort_parks_open_zone() {
    let (mut t, _dev) = small_setup(3);
    let mut op = t.write_begin(32, 0).unwrap();
    assert!(matches!(t.write(&mut op), Ok(WriteAction::Append { zslba: 16, .. })));
    assert_eq!(t.free_zone_count(), 2);
    t.write_abort(&mut op);
    assert_eq!(t.free_zone_count(), 3);
    // The write can go on with the zone back in the pool.
    assert!(matches!(t.write(&mut op), Ok(WriteAction::Append { zslba: 16, .. })));
}
