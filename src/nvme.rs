//! Namespace facts and the NVMe zone-management actions the layer issues.
use vstd::prelude::*;

use crate::error::{FtlError, ZONE_FULL_STATUS};

verus! {

/// Number of blocks that `len` bytes occupy.
pub open spec fn blocks_for(len: int, block_size: int) -> int {
    len / block_size + if len % block_size == 0 {
        0int
    } else {
        1int
    }
}

/// Zoned facts of a namespace.
#[derive(Clone, Copy)]
pub struct NvmeZNSInfo {
    /// Blocks between the starts of two consecutive zones.
    pub zone_size: u64,
    /// Number of zones.
    pub n_zones: u64,
}

/// Facts of a namespace that the identify commands report.
#[derive(Clone, Copy)]
pub struct NvmeNamespace {
    pub id: u32,
    /// Number of blocks of the namespace.
    pub blocks: u64,
    /// Bytes per block.
    pub block_size: u64,
    /// Index of the namespace's LBA format.
    pub flba_idx: u8,
    /// Zone facts, for a zoned namespace.
    pub zns_info: Option<NvmeZNSInfo>,
}

/// Counters of a device's commands.
#[derive(Clone, Copy)]
pub struct NvmeStats {
    pub completions: u64,
    pub submissions: u64,
}

/// Zone send actions.
#[derive(Clone, Copy)]
pub enum ZnsZsa {
    CloseZone,
    FinishZone,
    OpenZone,
    ResetZone,
    OfflineZone,
}

impl ZnsZsa {
    pub open spec fn spec_code(&self) -> u8 {
        match self {
            ZnsZsa::CloseZone => 1,
            ZnsZsa::FinishZone => 2,
            ZnsZsa::OpenZone => 3,
            ZnsZsa::ResetZone => 4,
            ZnsZsa::OfflineZone => 5,
        }
    }

    /// The action's code in a zone management send command.
    pub fn code(&self) -> (r: u8)
        ensures
            r == self.spec_code(),
    {
        match self {
            ZnsZsa::CloseZone => 1,
            ZnsZsa::FinishZone => 2,
            ZnsZsa::OpenZone => 3,
            ZnsZsa::ResetZone => 4,
            ZnsZsa::OfflineZone => 5,
        }
    }
}

/// 32-bit controller registers.
#[derive(Clone, Copy)]
pub enum NvmeRegs32 {
    VS,
    INTMS,
    INTMC,
    CC,
    CSTS,
    NSSR,
    AQA,
    CMBLOC,
    CMBSZ,
    BPINFO,
    BPRSEL,
    BPMBL,
    CMBSTS,
    PMRCAP,
    PMRCTL,
    PMRSTS,
    PMREBS,
    PMRSWTP,
}

impl NvmeRegs32 {
    /// Byte offset of the register in the controller's register space.
    pub fn offset(&self) -> (r: u32)
        ensures
            r % 4 == 0,
            r <= 0xE10,
    {
        match self {
            NvmeRegs32::VS => 0x8,
            NvmeRegs32::INTMS => 0xC,
            NvmeRegs32::INTMC => 0x10,
            NvmeRegs32::CC => 0x14,
            NvmeRegs32::CSTS => 0x1C,
            NvmeRegs32::NSSR => 0x20,
            NvmeRegs32::AQA => 0x24,
            NvmeRegs32::CMBLOC => 0x38,
            NvmeRegs32::CMBSZ => 0x3C,
            NvmeRegs32::BPINFO => 0x40,
            NvmeRegs32::BPRSEL => 0x44,
            NvmeRegs32::BPMBL => 0x48,
            NvmeRegs32::CMBSTS => 0x58,
            NvmeRegs32::PMRCAP => 0xE00,
            NvmeRegs32::PMRCTL => 0xE04,
            NvmeRegs32::PMRSTS => 0xE08,
            NvmeRegs32::PMREBS => 0xE0C,
            NvmeRegs32::PMRSWTP => 0xE10,
        }
    }
}

/// 64-bit controller registers.
#[derive(Clone, Copy)]
pub enum NvmeRegs64 {
    CAP,
    ASQ,
    ACQ,
    CMBMSC,
    PMRMSC,
}

impl NvmeRegs64 {
    /// Byte offset of the register in the controller's register space.
    pub fn offset(&self) -> (r: u32)
        ensures
            r % 4 == 0,
            r <= 0xE14,
    {
        match self {
            NvmeRegs64::CAP => 0x0,
            NvmeRegs64::ASQ => 0x28,
            NvmeRegs64::ACQ => 0x30,
            NvmeRegs64::CMBMSC => 0x50,
            NvmeRegs64::PMRMSC => 0xE14,
        }
    }
}

pub const OPC_WRITE: u8 = 0x01;
pub const OPC_READ: u8 = 0x02;
pub const OPC_ZONE_MGMT_SEND: u8 = 0x79;
pub const OPC_ZONE_MGMT_RECV: u8 = 0x7A;
pub const OPC_ZONE_APPEND: u8 = 0x7D;

/// A 64-byte submission queue entry.
#[derive(Clone, Copy)]
pub struct NvmeCommand {
    pub opcode: u8,
    pub flags: u8,
    pub c_id: u16,
    pub ns_id: u32,
    pub rsvd: u64,
    pub md_ptr: u64,
    pub prp1: u64,
    pub prp2: u64,
    pub cdw10: u32,
    pub cdw11: u32,
    pub cdw12: u32,
    pub cdw13: u32,
    pub cdw14: u32,
    pub cdw15: u32,
}

/// The low 32 bits of `x`.
pub open spec fn lo32(x: u64) -> u32 {
    (x % 0x1_0000_0000) as u32
}

/// The high 32 bits of `x`.
pub open spec fn hi32(x: u64) -> u32 {
    (x / 0x1_0000_0000) as u32
}

/// `cmd` addresses block `lba` of namespace `ns_id` through `cdw10` and
/// `cdw11`, with data pointers `ptr0` and `ptr1`, and leaves the words it does
/// not use zero.
pub open spec fn addressed(cmd: NvmeCommand, c_id: u16, ns_id: u32, lba: u64, ptr0: u64, ptr1: u64) -> bool {
    &&& cmd.c_id == c_id
    &&& cmd.ns_id == ns_id
    &&& cmd.flags == 0
    &&& cmd.rsvd == 0
    &&& cmd.md_ptr == 0
    &&& cmd.prp1 == ptr0
    &&& cmd.prp2 == ptr1
    &&& cmd.cdw10 == lo32(lba)
    &&& cmd.cdw11 == hi32(lba)
    &&& cmd.cdw14 == 0
    &&& cmd.cdw15 == 0
}

impl NvmeCommand {
    fn addressing(opcode: u8, c_id: u16, ns_id: u32, lba: u64, ptr0: u64, ptr1: u64) -> (r: NvmeCommand)
        ensures
            r.opcode == opcode,
            addressed(r, c_id, ns_id, lba, ptr0, ptr1),
            r.cdw12 == 0,
            r.cdw13 == 0,
    {
        NvmeCommand {
            opcode,
            flags: 0,
            c_id,
            ns_id,
            rsvd: 0,
            md_ptr: 0,
            prp1: ptr0,
            prp2: ptr1,
            cdw10: (lba % 0x1_0000_0000) as u32,
            cdw11: (lba / 0x1_0000_0000) as u32,
            cdw12: 0,
            cdw13: 0,
            cdw14: 0,
            cdw15: 0,
        }
    }

    /// Read of `blocks_1 + 1` blocks from `lba`.
    pub fn io_read(c_id: u16, ns_id: u32, lba: u64, blocks_1: u16, ptr0: u64, ptr1: u64) -> (r: NvmeCommand)
        ensures
            r.opcode == OPC_READ,
            addressed(r, c_id, ns_id, lba, ptr0, ptr1),
            r.cdw12 == blocks_1 as u32,
            r.cdw13 == 0,
    {
        let mut c = NvmeCommand::addressing(OPC_READ, c_id, ns_id, lba, ptr0, ptr1);
        c.cdw12 = blocks_1 as u32;
        c
    }

    /// Write of `blocks_1 + 1` blocks at `lba`.
    pub fn io_write(c_id: u16, ns_id: u32, lba: u64, blocks_1: u16, ptr0: u64, ptr1: u64) -> (r: NvmeCommand)
        ensures
            r.opcode == OPC_WRITE,
            addressed(r, c_id, ns_id, lba, ptr0, ptr1),
            r.cdw12 == blocks_1 as u32,
            r.cdw13 == 0,
    {
        let mut c = NvmeCommand::addressing(OPC_WRITE, c_id, ns_id, lba, ptr0, ptr1);
        c.cdw12 = blocks_1 as u32;
        c
    }

    /// Append of `blocks_1 + 1` blocks to the zone starting at `zslba`.
    pub fn zone_append(c_id: u16, ns_id: u32, zslba: u64, blocks_1: u16, ptr0: u64, ptr1: u64) -> (r: NvmeCommand)
        ensures
            r.opcode == OPC_ZONE_APPEND,
            addressed(r, c_id, ns_id, zslba, ptr0, ptr1),
            r.cdw12 == blocks_1 as u32,
            r.cdw13 == 0,
    {
        let mut c = NvmeCommand::addressing(OPC_ZONE_APPEND, c_id, ns_id, zslba, ptr0, ptr1);
        c.cdw12 = blocks_1 as u32;
        c
    }

    /// Zone management send: action `zsa` on the zone starting at `slba`, or
    /// on every zone with `select_all`.
    pub fn zone_management_send(c_id: u16, ns_id: u32, slba: u64, select_all: bool, zsa: u8, ptr0: u64) -> (r:
        NvmeCommand)
        ensures
            r.opcode == OPC_ZONE_MGMT_SEND,
            addressed(r, c_id, ns_id, slba, ptr0, 0),
            r.cdw12 == 0,
            r.cdw13 == (if select_all { 0x100u32 } else { 0u32 }) + zsa as u32,
    {
        let mut c = NvmeCommand::addressing(OPC_ZONE_MGMT_SEND, c_id, ns_id, slba, ptr0, 0);
        c.cdw13 = (if select_all {
            0x100u32
        } else {
            0u32
        }) + zsa as u32;
        c
    }

    /// Zone management receive of `n_dwords` double words of report, from
    /// the zone starting at `slba`, with action `zra`, its field `zra_field`
    /// and the partial-report flag `zra_spec_feats`.
    pub fn zone_management_rcv(
        c_id: u16,
        ns_id: u32,
        slba: u64,
        n_dwords: u32,
        zra: u8,
        zra_field: u8,
        zra_spec_feats: bool,
        ptr0: u64,
        ptr1: u64,
    ) -> (r: NvmeCommand)
        requires
            n_dwords >= 1,
        ensures
            r.opcode == OPC_ZONE_MGMT_RECV,
            addressed(r, c_id, ns_id, slba, ptr0, ptr1),
            r.cdw12 == n_dwords - 1,
            r.cdw13 == zra as u32 + zra_field as u32 * 0x100 + if zra_spec_feats {
                0x1_0000u32
            } else {
                0u32
            },
    {
        let mut c = NvmeCommand::addressing(OPC_ZONE_MGMT_RECV, c_id, ns_id, slba, ptr0, ptr1);
        c.cdw12 = n_dwords - 1;
        c.cdw13 = zra as u32 + zra_field as u32 * 0x100 + if zra_spec_feats {
            0x1_0000u32
        } else {
            0u32
        };
        c
    }
}

/// A 16-byte completion queue entry.
#[derive(Clone, Copy)]
pub struct NvmeCompletion {
    /// First command-specific double word.
    pub cs1: u32,
    /// Second command-specific double word.
    pub cs2: u32,
    pub sq_head: u16,
    pub sq_id: u16,
    pub c_id: u16,
    /// Status field; bit 0 is the phase tag.
    pub status: u16,
}

/// The status of `c`, without its phase tag.
pub open spec fn status_of(c: NvmeCompletion) -> u16 {
    (c.status / 2) as u16
}

/// Outcome of a completion: success, the zone-full status, or another failure.
pub fn completion_status(c: &NvmeCompletion) -> (r: Result<(), FtlError>)
    ensures
        status_of(*c) == 0 ==> r is Ok,
        status_of(*c) != 0 && status_of(*c) % 0x100 == ZONE_FULL_STATUS ==> r == Err::<(), FtlError>(
            FtlError::ZoneFull,
        ),
        status_of(*c) != 0 && status_of(*c) % 0x100 != ZONE_FULL_STATUS ==> r == Err::<(), FtlError>(
            FtlError::DeviceError { status_code: status_of(*c) },
        ),
{
    let status = c.status / 2;
    if status == 0 {
        Ok(())
    } else if status % 0x100 == ZONE_FULL_STATUS {
        Err(FtlError::ZoneFull)
    } else {
        Err(FtlError::DeviceError { status_code: status })
    }
}

/// The block at which a completed zone append landed: `cs2 << 32 | cs1`,
/// or the failure the completion reports.
pub fn append_destination(c: &NvmeCompletion) -> (r: Result<u64, FtlError>)
    ensures
        status_of(*c) == 0 ==> r == Ok::<u64, FtlError>(((c.cs2 as u64) * 0x1_0000_0000 + c.cs1 as u64) as u64),
        status_of(*c) != 0 && status_of(*c) % 0x100 == ZONE_FULL_STATUS ==> r == Err::<u64, FtlError>(
            FtlError::ZoneFull,
        ),
        status_of(*c) != 0 && status_of(*c) % 0x100 != ZONE_FULL_STATUS ==> r == Err::<u64, FtlError>(
            FtlError::DeviceError { status_code: status_of(*c) },
        ),
{
    match completion_status(c) {
        Ok(()) => {
            assert((c.cs2 as u64) * 0x1_0000_0000 + c.cs1 as u64 <= u64::MAX) by (nonlinear_arith)
                requires
                    c.cs2 <= u32::MAX,
                    c.cs1 <= u32::MAX,
            ;
            Ok((c.cs2 as u64) * 0x1_0000_0000 + c.cs1 as u64)
        },
        Err(e) => Err(e),
    }
}

/// Second PRP entry for a transfer of `bytes`: none up to one 4 KiB page,
/// the buffer's second page up to two pages, else the PRP list.
pub fn get_prp2(buffer_phys: u64, prp_list_phys: u64, bytes: u64) -> (r: u64)
    requires
        bytes > 8192 || bytes <= 4096 || buffer_phys + 4096 <= u64::MAX,
    ensures
        bytes <= 4096 ==> r == 0,
        4096 < bytes <= 8192 ==> r == buffer_phys + 4096,
        bytes > 8192 ==> r == prp_list_phys,
{
    if bytes <= 4096 {
        0
    } else if bytes <= 8192 {
        buffer_phys + 4096
    } else {
        prp_list_phys
    }
}

} // verus!
