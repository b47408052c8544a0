//! Zoned-namespace data structures: zone descriptors of a zone report, and
//! the zone size of the identify-namespace data of the zoned command set.
use vstd::prelude::*;

use crate::nvme::NvmeZNSInfo;

verus! {

/// Name of zone type `zt`.
pub open spec fn zone_type_name(zt: u8) -> Seq<char> {
    if zt == 2 {
        "Sequential Write Required"@
    } else {
        "unknown"@
    }
}

/// Name of zone state `zs`.
pub open spec fn zone_state_name(zs: u8) -> Seq<char> {
    if zs == 1 {
        "Empty"@
    } else if zs == 2 {
        "Implicitly Open"@
    } else if zs == 3 {
        "Explicitly Open"@
    } else if zs == 4 {
        "Closed"@
    } else if zs == 13 {
        "Read Only"@
    } else if zs == 14 {
        "Full"@
    } else if zs == 15 {
        "Offline"@
    } else {
        "unknown"@
    }
}

pub fn zonetype_to_string(ztype: u8) -> (r: &'static str)
    ensures
        r@ == zone_type_name(ztype),
{
    if ztype == 2 {
        "Sequential Write Required"
    } else {
        "unknown"
    }
}

pub fn zonestate_to_string(zstate: u8) -> (r: &'static str)
    ensures
        r@ == zone_state_name(zstate),
{
    if zstate == 1 {
        "Empty"
    } else if zstate == 2 {
        "Implicitly Open"
    } else if zstate == 3 {
        "Explicitly Open"
    } else if zstate == 4 {
        "Closed"
    } else if zstate == 13 {
        "Read Only"
    } else if zstate == 14 {
        "Full"
    } else if zstate == 15 {
        "Offline"
    } else {
        "unknown"
    }
}

/// The little-endian 32-bit integer at `off` of `b`.
pub open spec fn le32(b: Seq<u8>, off: int) -> int {
    b[off] + b[off + 1] * 0x100 + b[off + 2] * 0x1_0000 + b[off + 3] * 0x100_0000
}

/// The little-endian 64-bit integer at `off` of `b`.
pub open spec fn le64(b: Seq<u8>, off: int) -> int {
    le32(b, off) + le32(b, off + 4) * 0x1_0000_0000
}

fn read_le32(b: &[u8], off: usize) -> (r: u64)
    requires
        off + 4 <= b@.len(),
    ensures
        r == le32(b@, off as int),
        r <= u32::MAX,
{
    b[off] as u64 + b[off + 1] as u64 * 0x100 + b[off + 2] as u64 * 0x1_0000 + b[off + 3] as u64 * 0x100_0000
}

fn read_le64(b: &[u8], off: usize) -> (r: u64)
    requires
        off + 8 <= b@.len(),
    ensures
        r == le64(b@, off as int),
{
    let len = b.len();
    assert(off + 8 <= len);
    let lo = read_le32(b, off);
    let hi = read_le32(b, off + 4);
    lo + hi * 0x1_0000_0000
}

/// A zone descriptor of a zone report.
#[derive(Clone, Copy)]
pub struct ZoneDescriptorData {
    /// Zone type.
    pub zt: u8,
    /// Zone state, in the upper four bits.
    pub zs: u8,
    /// Zone attributes.
    pub za: u8,
    /// Zone attributes information.
    pub zai: u8,
    /// Zone capacity.
    pub zcap: u64,
    /// Zone start block.
    pub zslba: u64,
    /// Write pointer.
    pub wp: u64,
}

/// Bytes of a zone report header, and of each zone descriptor.
pub const ZONE_DESCRIPTOR_BYTES: usize = 64;

/// The zone descriptor at byte `off` of `b`.
pub open spec fn descriptor_at(b: Seq<u8>, off: int) -> ZoneDescriptorData {
    ZoneDescriptorData {
        zt: b[off],
        zs: b[off + 1],
        za: b[off + 2],
        zai: b[off + 3],
        zcap: le64(b, off + 8) as u64,
        zslba: le64(b, off + 16) as u64,
        wp: le64(b, off + 24) as u64,
    }
}

/// Number of descriptors a report in `b` holds: as many as its header
/// announces, no more than the buffer has room for.
pub open spec fn report_len(b: Seq<u8>) -> int {
    let room = b.len() / 64 - 1;
    if b.len() < 64 {
        0
    } else if le64(b, 0) < room {
        le64(b, 0)
    } else {
        room
    }
}

impl ZoneDescriptorData {
    /// Decodes the descriptor at byte `off` of `b`.
    pub fn parse(b: &[u8], off: usize) -> (r: ZoneDescriptorData)
        requires
            off + 64 <= b@.len(),
        ensures
            r == descriptor_at(b@, off as int),
    {
        ZoneDescriptorData {
            zt: b[off],
            zs: b[off + 1],
            za: b[off + 2],
            zai: b[off + 3],
            zcap: read_le64(b, off + 8),
            zslba: read_le64(b, off + 16),
            wp: read_le64(b, off + 24),
        }
    }

    /// The zone state, from the upper four bits of `zs`.
    pub fn state(&self) -> (r: u8)
        ensures
            r == self.zs / 16,
    {
        self.zs / 16
    }
}

/// Decodes a zone report: a 64-byte header whose first eight bytes count the
/// descriptors, then 64-byte descriptors.
pub fn parse_zone_report(b: &[u8]) -> (r: Vec<ZoneDescriptorData>)
    ensures
        r@.len() == report_len(b@),
        forall|i: int| 0 <= i < r@.len() ==> #[trigger] r@[i] == descriptor_at(b@, 64 * (i + 1)),
{
    let mut out: Vec<ZoneDescriptorData> = Vec::new();
    if b.len() < ZONE_DESCRIPTOR_BYTES {
        return out;
    }
    let announced = read_le64(b, 0);
    let room: usize = b.len() / ZONE_DESCRIPTOR_BYTES - 1;
    let n: usize = if announced < room as u64 {
        announced as usize
    } else {
        room
    };
    let blen = b.len();
    let mut i: usize = 0;
    while i < n
        invariant
            blen == b@.len(),
            n == report_len(b@),
            n <= room,
            room == b@.len() / 64 - 1,
            i <= n,
            out@.len() == i,
            forall|k: int| 0 <= k < i ==> #[trigger] out@[k] == descriptor_at(b@, 64 * (k + 1)),
        decreases n - i,
    {
        proof {
            assert(64 * (i + 1) + 64 <= b@.len()) by (nonlinear_arith)
                requires
                    i < n,
                    n <= room,
                    room == b@.len() / 64 - 1,
            ;
        }
        let d = ZoneDescriptorData::parse(b, 64 * (i + 1));
        out.push(d);
        proof {
            assert forall|k: int| 0 <= k < i + 1 implies #[trigger] out@[k] == descriptor_at(b@, 64 * (k + 1)) by {
                if k < i {
                }
            }
        }
        i = i + 1;
    }
    out
}

/// Byte of the zoned identify-namespace data at which the LBA format
/// extensions start; each is 16 bytes, the zone size in its low bytes.
pub const LBAFE_OFFSET: usize = 2816;

/// Bytes of the zoned identify-namespace data.
pub const IDENTIFY_ZNS_BYTES: usize = 4096;

/// The zoned identify-namespace data: operation characteristics, optional
/// command support, resource limits, and the zone size of each LBA format.
pub struct IdentifyNamespaceZNSData {
    pub zoc: u16,
    pub ozcs: u16,
    pub mar: u32,
    pub mor: u32,
    /// Low 32 bits of the zone size field of each of the 64 LBA format extensions.
    pub lbafe: Vec<u64>,
}

/// The little-endian 16-bit integer at `off` of `b`.
pub open spec fn le16(b: Seq<u8>, off: int) -> int {
    b[off] + b[off + 1] * 0x100
}

impl IdentifyNamespaceZNSData {
    /// Decodes the data structure from the first 4096 bytes of `b`; `None`
    /// if `b` is shorter.
    pub fn parse(b: &[u8]) -> (r: Option<IdentifyNamespaceZNSData>)
        ensures
            match r {
                Some(d) => {
                    &&& b@.len() >= 4096
                    &&& d.zoc == le16(b@, 0)
                    &&& d.ozcs == le16(b@, 2)
                    &&& d.mar == le32(b@, 4)
                    &&& d.mor == le32(b@, 8)
                    &&& d.lbafe@.len() == 64
                    &&& forall|i: int| 0 <= i < 64 ==> #[trigger] d.lbafe@[i] == le32(b@, 2816 + 16 * i)
                },
                None => b@.len() < 4096,
            },
    {
        if b.len() < IDENTIFY_ZNS_BYTES {
            return None;
        }
        let zoc = (b[0] as u16) + (b[1] as u16) * 0x100;
        let ozcs = (b[2] as u16) + (b[3] as u16) * 0x100;
        let mar = read_le32(b, 4) as u32;
        let mor = read_le32(b, 8) as u32;
        let mut lbafe: Vec<u64> = Vec::new();
        let mut i: usize = 0;
        while i < 64
            invariant
                b@.len() >= 4096,
                i <= 64,
                lbafe@.len() == i,
                forall|k: int| 0 <= k < i ==> #[trigger] lbafe@[k] == le32(b@, 2816 + 16 * k),
            decreases 64 - i,
        {
            lbafe.push(read_le32(b, LBAFE_OFFSET + 16 * i));
            i = i + 1;
        }
        Some(IdentifyNamespaceZNSData { zoc, ozcs, mar, mor, lbafe })
    }

    /// Zone size of LBA format `flba_idx`, if it is one of the 64 formats.
    pub fn zone_size(&self, flba_idx: u8) -> (r: Option<u64>)
        ensures
            r == if (flba_idx as int) < self.lbafe@.len() {
                Some(self.lbafe@[flba_idx as int])
            } else {
                None::<u64>
            },
    {
        if (flba_idx as usize) < self.lbafe.len() {
            Some(self.lbafe[flba_idx as usize])
        } else {
            None
        }
    }
}

/// Zone facts of a namespace of `blocks` blocks whose zoned identify data is
/// `data`, in LBA format `flba_idx`: the zone size is the low 32 bits of the
/// format's extension, the zone count the whole zones that fit. `None` if the
/// data is too short, the format is not one of the 64, or the zone size is zero.
pub fn zns_info_from_identify(data: &[u8], flba_idx: u8, blocks: u64) -> (r: Option<NvmeZNSInfo>)
    ensures
        match r {
            Some(info) => {
                &&& data@.len() >= 4096
                &&& flba_idx < 64
                &&& info.zone_size == le32(data@, 2816 + 16 * flba_idx)
                &&& info.zone_size > 0
                &&& info.n_zones == blocks / info.zone_size
            },
            None => data@.len() < 4096 || flba_idx >= 64 || le32(data@, 2816 + 16 * flba_idx) == 0,
        },
{
    let id = match IdentifyNamespaceZNSData::parse(data) {
        Some(id) => id,
        None => return None,
    };
    let zone_size = match id.zone_size(flba_idx) {
        Some(z) => z,
        None => return None,
    };
    if zone_size == 0 {
        return None;
    }
    Some(NvmeZNSInfo { zone_size, n_zones: blocks / zone_size })
}

} // verus!
