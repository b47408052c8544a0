use vroom::error::FtlError;
use vroom::nvme::{
    append_destination, completion_status, get_prp2, NvmeCommand, NvmeCompletion, ZnsZsa, OPC_READ,
    OPC_WRITE, OPC_ZONE_APPEND, OPC_ZONE_MGMT_RECV, OPC_ZONE_MGMT_SEND,
};
use vroom::queues::{DmaChunk, NvmeCompQueue, NvmeQueuePair, NvmeSubQueue};
use vroom::nvme::{NvmeRegs32, NvmeRegs64};
use vroom::zns::{
    parse_zone_report, zns_info_from_identify, zonestate_to_string, zonetype_to_string, IdentifyNamespaceZNSData,
    ZoneDescriptorData,
};

fn completion(cs1: u32, cs2: u32, status: u16) -> NvmeCompletion {
    NvmeCompletion { cs1, cs2, sq_head: 0, sq_id: 1, c_id: 0, status }
}

fn blank_command() -> NvmeCommand {
    NvmeCommand::io_read(0, 0, 0, 0, 0, 0)
}

#[test]
fn command_fields() {
    let c = NvmeCommand::zone_append(7, 1, 0x1_2345_6789, 2, 0x1000, 0x2000);
    assert_eq!(c.opcode, OPC_ZONE_APPEND);
    assert_eq!((c.c_id, c.ns_id, c.prp1, c.prp2), (7, 1, 0x1000, 0x2000));
    assert_eq!((c.cdw10, c.cdw11, c.cdw12, c.cdw13), (0x2345_6789, 0x1, 2, 0));
    let r = NvmeCommand::io_read(1, 2, 5, 3, 8, 0);
    assert_eq!((r.opcode, r.cdw10, r.cdw11, r.cdw12), (OPC_READ, 5, 0, 3));
    let w = NvmeCommand::io_write(1, 2, 5, 3, 8, 0);
    assert_eq!(w.opcode, OPC_WRITE);
    let s = NvmeCommand::zone_management_send(3, 1, 0x4000, true, ZnsZsa::ResetZone.code(), 0x1000);
    assert_eq!((s.opcode, s.cdw10, s.cdw13, s.prp2), (OPC_ZONE_MGMT_SEND, 0x4000, 0x104, 0));
    let v = NvmeCommand::zone_management_rcv(3, 1, 0, 528, 0, 0, true, 0x1000, 0x3000);
    assert_eq!((v.opcode, v.cdw12, v.cdw13), (OPC_ZONE_MGMT_RECV, 527, 0x1_0000));
}

#[test]
fn zone_action_codes() {
    assert_eq!(ZnsZsa::CloseZone.code(), 1);
    assert_eq!(ZnsZsa::FinishZone.code(), 2);
    assert_eq!(ZnsZsa::OpenZone.code(), 3);
    assert_eq!(ZnsZsa::ResetZone.code(), 4);
    assert_eq!(ZnsZsa::OfflineZone.code(), 5);
}

#[test]
fn completion_decoding() {
    assert_eq!(append_destination(&completion(0x10, 0x2, 1)), Ok(0x2_0000_0010));
    assert_eq!(completion_status(&completion(0, 0, 0)), Ok(()));
    assert_eq!(append_destination(&completion(0, 0, (0x1B9 << 1) | 1)), Err(FtlError::ZoneFull));
    assert_eq!(
        completion_status(&completion(0, 0, 0x2 << 1)),
        Err(FtlError::DeviceError { status_code: 0x2 })
    );
}

#[test]
fn prp2_by_size() {
    assert_eq!(get_prp2(0x10000, 0x20000, 512), 0);
    assert_eq!(get_prp2(0x10000, 0x20000, 4096), 0);
    assert_eq!(get_prp2(0x10000, 0x20000, 8192), 0x11000);
    assert_eq!(get_prp2(0x10000, 0x20000, 8193), 0x20000);
}

#[test]
fn zone_names() {
    assert_eq!(zonetype_to_string(2), "Sequential Write Required");
    assert_eq!(zonetype_to_string(1), "unknown");
    assert_eq!(zonestate_to_string(1), "Empty");
    assert_eq!(zonestate_to_string(14), "Full");
    assert_eq!(zonestate_to_string(15), "Offline");
    assert_eq!(zonestate_to_string(9), "unknown");
}

#[test]
fn zone_report_parsing() {
    let mut b = vec![0u8; 64 * 4];
    b[0] = 2;
    for z in 0..2usize {
        let off = 64 * (z + 1);
        b[off] = 2;
        b[off + 1] = 0x10;
        b[off + 8..off + 16].copy_from_slice(&15872u64.to_le_bytes());
        b[off + 16..off + 24].copy_from_slice(&(z as u64 * 16384).to_le_bytes());
        b[off + 24..off + 32].copy_from_slice(&(z as u64 * 16384 + 5).to_le_bytes());
    }
    let d = parse_zone_report(&b);
    assert_eq!(d.len(), 2);
    assert_eq!((d[1].zt, d[1].zcap, d[1].zslba, d[1].wp), (2, 15872, 16384, 16389));
    assert_eq!(d[0].state(), 1);
    // A header that announces more descriptors than the buffer holds.
    b[0] = 9;
    assert_eq!(parse_zone_report(&b).len(), 3);
    assert_eq!(parse_zone_report(&b[..10]).len(), 0);
    let one: ZoneDescriptorData = ZoneDescriptorData::parse(&b, 64);
    assert_eq!(one.zslba, 0);
}

#[test]
fn zone_size_from_identify() {
    let mut data = vec![0u8; 4096];
    data[2816 + 16..2816 + 20].copy_from_slice(&16384u32.to_le_bytes());
    let info = zns_info_from_identify(&data, 1, 16384 * 32 + 100).unwrap();
    assert_eq!((info.zone_size, info.n_zones), (16384, 32));
    assert!(zns_info_from_identify(&data, 0, 1000).is_none());
    assert!(zns_info_from_identify(&data[..2000], 1, 1000).is_none());
}

#[test]
fn submission_ring_refuses_when_full() {
    let mut q = NvmeSubQueue::new(4, blank_command());
    assert_eq!(q.submit_checked(blank_command()), Some(1));
    assert_eq!(q.submit_checked(blank_command()), Some(2));
    assert_eq!(q.submit_checked(blank_command()), Some(3));
    assert!(q.is_full());
    assert_eq!(q.submit_checked(blank_command()), None);
    q.set_head(2);
    assert_eq!(q.submit_checked(blank_command()), Some(0));
    assert_eq!(q.tail(), 0);
}

#[test]
fn completion_ring_phase() {
    let mut c = NvmeCompQueue::new(2, completion(0, 0, 0));
    assert!(c.complete().is_none());
    c.store(0, completion(5, 0, 1));
    let (head, e) = c.complete().unwrap();
    assert_eq!((head, e.cs1), (1, 5));
    c.store(1, completion(6, 0, 1));
    assert_eq!(c.complete().unwrap().0, 0);
    // After the wrap, entries tagged with the old phase are not new.
    assert!(c.complete().is_none());
    c.store(0, completion(7, 0, 0));
    assert_eq!(c.complete().unwrap().1.cs1, 7);
}

#[test]
fn queue_pair_submits_chunks() {
    let mut qp = NvmeQueuePair {
        id: 1,
        sub_queue: NvmeSubQueue::new(4, blank_command()),
        comp_queue: NvmeCompQueue::new(4, completion(0, 0, 0)),
    };
    let chunks = vec![
        DmaChunk { phys_addr: 0x1000, len: 8192 },
        DmaChunk { phys_addr: 0x9000, len: 100 },
        DmaChunk { phys_addr: 0xA000, len: 4096 },
        DmaChunk { phys_addr: 0xB000, len: 4096 },
    ];
    assert_eq!(qp.submit_io(1, 512, &chunks, 40, true), 3);
    assert_eq!(qp.sub_queue.tail(), 3);
    assert_eq!(qp.submit_io(1, 512, &chunks, 40, false), 0);
}

#[test]
fn identify_data_parsing() {
    let mut data = vec![0u8; 4096];
    data[0] = 1;
    data[4..8].copy_from_slice(&14u32.to_le_bytes());
    data[2816 + 16 * 3..2816 + 16 * 3 + 8].copy_from_slice(&0x1_0000_4000u64.to_le_bytes());
    let d = IdentifyNamespaceZNSData::parse(&data).unwrap();
    assert_eq!((d.zoc, d.ozcs, d.mar, d.mor), (1, 0, 14, 0));
    assert_eq!(d.lbafe.len(), 64);
    assert_eq!(d.zone_size(3), Some(0x4000));
    assert_eq!(d.zone_size(64), None);
    assert!(IdentifyNamespaceZNSData::parse(&data[..4095]).is_none());
}

#[test]
fn register_offsets() {
    assert_eq!(NvmeRegs32::CC.offset(), 0x14);
    assert_eq!(NvmeRegs32::CSTS.offset(), 0x1C);
    assert_eq!(NvmeRegs32::AQA.offset(), 0x24);
    assert_eq!(NvmeRegs64::CAP.offset(), 0x0);
    assert_eq!(NvmeRegs64::ASQ.offset(), 0x28);
    assert_eq!(NvmeRegs64::ACQ.offset(), 0x30);
}

#[test]
fn queue_pair_stops_at_free_slots() {
    let mut qp = NvmeQueuePair {
        id: 2,
        sub_queue: NvmeSubQueue::new(4, blank_command()),
        comp_queue: NvmeCompQueue::new(4, completion(0, 0, 0)),
    };
    let one = vec![DmaChunk { phys_addr: 0x1000, len: 512 }];
    assert_eq!(qp.submit_io(1, 512, &one, 0, false), 1);
    assert_eq!(qp.submit_io(1, 512, &one, 1, false), 1);
    // Head 0, tail 2: one slot left.
    let chunks = vec![DmaChunk { phys_addr: 0x2000, len: 512 }; 3];
    assert_eq!(qp.submit_io(1, 512, &chunks, 2, false), 1);
    assert_eq!(qp.sub_queue.tail(), 3);
    qp.sub_queue.set_head(3);
    assert_eq!(qp.submit_io(1, 512, &chunks, 3, true), 3);
    assert_eq!(qp.sub_queue.tail(), 2);
}
