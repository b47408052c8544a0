//! The translation layer: the mapping, the zone pools, and the decisions of
//! the write, read and reclaim paths. The device commands those decisions call
//! for are issued by the caller, who hands back what the device returned.
use vstd::prelude::*;

use crate::error::FtlError;
use crate::map::{
    ZNSMap, ZNS_MAP_UNMAPPED, bit_run, is_mapped, lemma_set_count_bound, lemma_set_count_flip,
    lemma_set_count_mono, physical_run, run_hits_unmapped, same_mapping_run, set_count,
};
use crate::nvme::{NvmeNamespace, NvmeZNSInfo, blocks_for};
use crate::zones::{MapperZone, MapperZoneMetadata, ZNSZones, ZonePool};

verus! {

/// How reclaim chooses its victim among the full zones.
pub enum VictimSelectionMethod {
    /// The full zone with the most invalid blocks.
    InvalidBlocks,
    /// The least recently appended full zone.
    LRU,
}

proof fn lemma_zone_bounds_nonneg(z: int, size: int)
    requires
        0 <= z,
        size > 0,
    ensures
        0 <= z * size,
{
    assert(0 <= z * size) by (nonlinear_arith)
        requires
            0 <= z,
            size > 0,
    ;
}

/// Proof that block `p` of zone `z`, of stride `size`, has zone number `z`.
pub proof fn lemma_zone_of(p: int, z: int, size: int)
    requires
        size > 0,
        0 <= z,
        z * size <= p < z * size + size,
    ensures
        p / size == z,
{
    vstd::arithmetic::div_mod::lemma_fundamental_div_mod_converse_div(p, size, z, p - z * size);
}

/// An append that the layer has planned and the device has not yet completed:
/// `blocks` logical blocks from `lba` go to open zone `zone`.
#[derive(Clone, Copy)]
pub struct PendingAppend {
    pub zone: u64,
    pub lba: u64,
    pub blocks: u64,
}

/// A write in progress over logical blocks `[start, start + total)`.
pub struct WriteOp {
    len: usize,
    start: u64,
    lba: u64,
    blocks: u64,
    pending: Option<PendingAppend>,
    placed: Ghost<Seq<u64>>,
}

impl WriteOp {
    /// Number of bytes of the write.
    pub closed spec fn spec_len(&self) -> usize {
        self.len
    }

    /// First logical block of the write.
    pub closed spec fn spec_start(&self) -> u64 {
        self.start
    }

    /// Next logical block to place.
    pub closed spec fn spec_lba(&self) -> u64 {
        self.lba
    }

    /// Number of blocks left to place.
    pub closed spec fn spec_blocks(&self) -> u64 {
        self.blocks
    }

    pub closed spec fn spec_pending(&self) -> Option<PendingAppend> {
        self.pending
    }

    /// Physical block at which each block placed so far landed, in order.
    pub closed spec fn placed(&self) -> Seq<u64> {
        self.placed@
    }

    /// Whether every block of the write has been placed.
    pub fn is_done(&self) -> (r: bool)
        ensures
            r == (self.spec_blocks() == 0 && self.spec_pending() is None),
    {
        self.blocks == 0 && self.pending.is_none()
    }
}

/// What the device must do next for a write.
pub enum WriteAction {
    /// Append blocks `[offset, offset + blocks)` of the source, counted from
    /// the write's first block, to the zone starting at `zslba`: source bytes
    /// `[byte_start, byte_end)`.
    Append { zslba: u64, offset: u64, blocks: u64, byte_start: usize, byte_end: usize },
    /// Nothing: the write is complete.
    Done,
}

/// A read in progress over logical blocks `[start, start + total)`.
pub struct ReadOp {
    len: usize,
    start: u64,
    lba: u64,
    blocks: u64,
    fetched: Ghost<Seq<u64>>,
}

impl ReadOp {
    /// Number of bytes of the read.
    pub closed spec fn spec_len(&self) -> usize {
        self.len
    }

    pub closed spec fn spec_start(&self) -> u64 {
        self.start
    }

    pub closed spec fn spec_lba(&self) -> u64 {
        self.lba
    }

    pub closed spec fn spec_blocks(&self) -> u64 {
        self.blocks
    }

    /// Physical block read for each block fetched so far, in order.
    pub closed spec fn fetched(&self) -> Seq<u64> {
        self.fetched@
    }

    /// Whether every block of the read has been fetched.
    pub fn is_done(&self) -> (r: bool)
        ensures
            r == (self.spec_blocks() == 0),
    {
        self.blocks == 0
    }
}

/// One device read: physical blocks `[d_lba, d_lba + blocks)` of zone `zone`
/// into blocks `[offset, offset + blocks)` of the destination, which are its
/// bytes `[byte_start, byte_end)`.
pub struct ReadRun {
    pub zone: u64,
    pub d_lba: u64,
    pub offset: u64,
    pub blocks: u64,
    pub byte_start: usize,
    pub byte_end: usize,
}

/// Bytes `[offset * block_size, (offset + blocks) * block_size)` of a buffer
/// of `len` bytes, cut at its end.
pub open spec fn byte_span_ok(len: int, block_size: int, offset: int, blocks: int, lo: int, hi: int) -> bool {
    &&& lo == offset * block_size
    &&& hi == if (offset + blocks) * block_size < len {
        (offset + blocks) * block_size
    } else {
        len
    }
    &&& lo < hi <= len
}

proof fn lemma_block_in_buffer(len: int, b: int, x: int)
    requires
        b >= 1,
        0 <= x < blocks_for(len, b),
        len >= 0,
    ensures
        x * b < len,
{
    vstd::arithmetic::div_mod::lemma_fundamental_div_mod(len, b);
    vstd::arithmetic::div_mod::lemma_mod_bound(len, b);
    let q = len / b;
    let r = len % b;
    if r == 0 {
        assert(x * b < len) by (nonlinear_arith)
            requires
                len == b * q + r,
                r == 0,
                x < q,
                b >= 1,
                x >= 0,
        ;
    } else {
        assert(x * b < len) by (nonlinear_arith)
            requires
                len == b * q + r,
                r > 0,
                x <= q,
                b >= 1,
                x >= 0,
        ;
    }
}

/// Number of the logical blocks `[lba, lba + n)` mapped to a physical block
/// of zone `z`, for zones of stride `size`.
pub open spec fn charged(l2p: Seq<u64>, lba: int, n: int, size: int, z: int) -> int
    decreases n,
{
    if n <= 0 {
        0
    } else {
        charged(l2p, lba, n - 1, size, z) + if is_mapped(l2p[lba + n - 1]) && l2p[lba + n - 1] as int / size
            == z {
            1int
        } else {
            0int
        }
    }
}

/// `after` is `before` with one occurrence of zone `z` taken out.
pub open spec fn leaves_open(before: Seq<u64>, after: Seq<u64>, z: u64) -> bool {
    exists|i: int| 0 <= i < before.len() && before[i] == z && after == before.remove(i)
}

/// Every block the write placed so far is what the map holds for it.
pub open spec fn write_visible(t: ZNSTarget, op: WriteOp) -> bool {
    &&& op.placed().len() == op.spec_lba() - op.spec_start()
    &&& forall|i: int| 0 <= i < op.placed().len() ==> #[trigger] t.l2p()[op.spec_start() + i] == op.placed()[i]
}

/// Every block the read fetched so far is what the map holds for it.
pub open spec fn read_current(t: ZNSTarget, op: ReadOp) -> bool {
    &&& op.fetched().len() == op.spec_lba() - op.spec_start()
    &&& forall|i: int| 0 <= i < op.fetched().len() ==> #[trigger] t.l2p()[op.spec_start() + i] == op.fetched()[i]
}

/// A reclaim iteration in progress: the valid blocks of full zone `victim`
/// are copied to zone `dest`, in order, from physical block `cursor` on.
pub struct ReclaimOp {
    victim: u64,
    dest: u64,
    dest_from_op: bool,
    cursor: u64,
    pending: Option<(u64, u64)>,
}

impl ReclaimOp {
    pub closed spec fn spec_victim(&self) -> u64 {
        self.victim
    }

    pub closed spec fn spec_dest(&self) -> u64 {
        self.dest
    }

    pub closed spec fn spec_dest_from_op(&self) -> bool {
        self.dest_from_op
    }

    pub closed spec fn spec_cursor(&self) -> u64 {
        self.cursor
    }

    /// The copy planned and not yet completed: its first victim block and its length.
    pub closed spec fn spec_pending(&self) -> Option<(u64, u64)> {
        self.pending
    }

    /// Zone whose valid blocks are copied.
    pub fn victim(&self) -> (r: u64)
        ensures
            r == self.spec_victim(),
    {
        self.victim
    }

    /// Zone the copies go to.
    pub fn dest(&self) -> (r: u64)
        ensures
            r == self.spec_dest(),
    {
        self.dest
    }
}

/// What the device must do next for a reclaim iteration.
pub enum ReclaimAction {
    /// Copy physical blocks `[from, from + blocks)` by appending them to the
    /// zone starting at `to_zslba`.
    Copy { from: u64, blocks: u64, to_zslba: u64 },
    /// Every block of the victim is copied or invalid, and the victim is back
    /// in reserve: reset the zone starting at `zslba` on the device.
    Reset { zslba: u64 },
    /// The destination filled up first; both zones are parked in the full
    /// pool and the iteration is over.
    Done,
}

/// The translation layer's state.
pub struct ZNSTarget {
    max_lba: u64,
    exposed_zones: u64,
    ns_id: u32,
    block_size: u64,
    zns_info: NvmeZNSInfo,
    map: ZNSMap,
    victim_selection_method: VictimSelectionMethod,
    zones: ZNSZones,
    zones_metadata: Vec<MapperZoneMetadata>,
}

impl ZNSTarget {
    pub closed spec fn l2p(&self) -> Seq<u64> {
        self.map.l2p()
    }

    pub closed spec fn p2l(&self) -> Seq<u64> {
        self.map.p2l()
    }

    pub closed spec fn invalid(&self) -> Seq<bool> {
        self.map.invalid()
    }

    pub closed spec fn pools(&self) -> ZNSZones {
        self.zones
    }

    pub closed spec fn metadata(&self) -> Seq<MapperZoneMetadata> {
        self.zones_metadata@
    }

    pub closed spec fn spec_block_size(&self) -> u64 {
        self.block_size
    }

    pub closed spec fn spec_max_lba(&self) -> u64 {
        self.max_lba
    }

    pub closed spec fn spec_ns_id(&self) -> u32 {
        self.ns_id
    }

    pub closed spec fn spec_exposed_zones(&self) -> u64 {
        self.exposed_zones
    }

    pub closed spec fn method_is_lru(&self) -> bool {
        self.victim_selection_method is LRU
    }

    pub open spec fn zone_size(&self) -> int {
        self.pools().zone_size() as int
    }

    pub open spec fn n_zones(&self) -> int {
        self.pools().n_zones() as int
    }

    /// Number of physical blocks that lie in zones.
    pub open spec fn n_phys(&self) -> int {
        self.n_zones() * self.zone_size()
    }

    /// Number of logical blocks.
    pub open spec fn n_logical(&self) -> int {
        self.l2p().len() as int
    }

    /// Zone number of physical block `p`.
    pub open spec fn zone_of(&self, p: int) -> int {
        p / self.zone_size()
    }

    /// The zone record of zone `z`.
    pub open spec fn zone_rec(&self, z: int) -> MapperZone {
        self.pools().table()[z]
    }

    /// Physical block `p` lies below its zone's write pointer.
    pub open spec fn written(&self, p: int) -> bool {
        p < self.zone_rec(self.zone_of(p)).wp
    }

    /// Physical block `p` is what its back-pointer's logical block maps to.
    pub open spec fn live(&self, p: int) -> bool {
        &&& self.p2l()[p] < self.n_logical()
        &&& self.l2p()[self.p2l()[p] as int] == p
    }

    /// Logical block `l` maps to a written, valid physical block that maps back to `l`.
    pub open spec fn mapping_ok(&self, l: int) -> bool {
        is_mapped(self.l2p()[l]) ==> {
            let p = self.l2p()[l] as int;
            &&& p < self.n_phys()
            &&& self.p2l()[p] == l
            &&& !self.invalid()[p]
            &&& self.written(p)
        }
    }

    /// A written physical block is live or invalid.
    pub open spec fn block_ok(&self, p: int) -> bool {
        self.written(p) ==> self.invalid()[p] || self.live(p)
    }

    pub open spec fn wf(&self) -> bool {
        &&& self.pools().wf()
        &&& self.spec_block_size() > 0
        &&& self.n_logical() >= 1
        &&& self.n_logical() <= self.n_phys()
        &&& self.n_logical() % self.zone_size() == 0
        &&& self.spec_max_lba() == self.n_logical() - 1
        &&& self.p2l().len() == self.invalid().len()
        &&& self.n_phys() <= self.p2l().len()
        &&& self.metadata().len() == self.n_zones()
        &&& forall|l: int| 0 <= l < self.n_logical() ==> #[trigger] self.mapping_ok(l)
        &&& forall|p: int| 0 <= p < self.n_phys() ==> #[trigger] self.block_ok(p)
        &&& forall|p: int| 0 <= p < self.n_phys() ==> #[trigger] self.invalid_ok(p)
        &&& forall|z: int| 0 <= z < self.n_zones() ==> #[trigger] self.counter_ok(z)
    }

    /// Number of invalid blocks of zone `z`.
    pub open spec fn zone_invalid(&self, z: int) -> int {
        set_count(self.invalid(), z * self.zone_size(), z * self.zone_size() + self.zone_size())
    }

    /// The invalid-block counter of zone `z` counts no more than its invalid blocks.
    pub open spec fn counter_ok(&self, z: int) -> bool {
        self.metadata()[z].invalid_blocks <= self.zone_invalid(z)
    }

    /// An invalid physical block is written.
    pub open spec fn invalid_ok(&self, p: int) -> bool {
        self.invalid()[p] ==> self.written(p)
    }

    /// The map and table lengths fit in a `usize`.
    pub proof fn lemma_lens(&self)
        ensures
            self.l2p().len() <= usize::MAX,
            self.p2l().len() <= usize::MAX,
            self.invalid().len() <= usize::MAX,
            self.metadata().len() <= usize::MAX,
            self.pools().n_zones() <= usize::MAX,
    {
        assert(self.zones_metadata@.len() == self.zones_metadata.len());
        self.map.lemma_lens();
        self.zones.lemma_lens();
    }

    /// Builds the layer over namespace `ns`, whose zone `z` has capacity
    /// `zone_caps[z]`, exposing the first `exposed_zones` zones' worth of
    /// logical blocks: every block unmapped, those zones free, the other zones
    /// in reserve.
    pub fn init(
        ns: NvmeNamespace,
        zone_caps: &Vec<u64>,
        exposed_zones: u64,
        victim_selection_method: VictimSelectionMethod,
    ) -> (r: Result<Self, FtlError>)
        ensures
            match r {
                Ok(t) => {
                    &&& t.wf()
                    &&& ns.zns_info is Some
                    &&& t.zone_size() == ns.zns_info.unwrap().zone_size
                    &&& t.n_zones() == ns.zns_info.unwrap().n_zones
                    &&& t.n_logical() == exposed_zones * t.zone_size()
                    &&& t.p2l().len() == ns.blocks
                    &&& t.spec_block_size() == ns.block_size
                    &&& t.spec_ns_id() == ns.id
                    &&& t.spec_exposed_zones() == exposed_zones
                    &&& forall|l: int| 0 <= l < t.n_logical() ==> !is_mapped(#[trigger] t.l2p()[l])
                    &&& forall|p: int| 0 <= p < t.p2l().len() ==> !#[trigger] t.invalid()[p]
                    &&& forall|z: int| 0 <= z < t.n_zones() ==> #[trigger] t.zone_rec(z) == (MapperZone {
                        zslba: (z * t.zone_size()) as u64,
                        zone_cap: zone_caps[z],
                        wp: (z * t.zone_size()) as u64,
                    })
                    &&& t.pools().free() == Seq::new(exposed_zones as nat, |i: int| i as u64)
                    &&& t.pools().op() == Seq::new((t.n_zones() - exposed_zones) as nat, |i: int| (exposed_zones + i) as u64)
                    &&& t.pools().full().len() == 0
                    &&& t.pools().open().len() == 0
                },
                Err(e) => e == FtlError::InvalidParam && !init_ok(ns, zone_caps@, exposed_zones),
            },
            r is Ok <==> init_ok(ns, zone_caps@, exposed_zones),
    {
        let info = match ns.zns_info {
            Some(info) => info,
            None => return Err(FtlError::InvalidParam),
        };
        if ns.block_size == 0 || info.zone_size == 0 || exposed_zones == 0 || exposed_zones > info.n_zones
            || zone_caps.len() as u64 != info.n_zones || info.n_zones > ns.blocks / info.zone_size
            || ns.blocks > usize::MAX as u64 {
            return Err(FtlError::InvalidParam);
        }
        let mut i: usize = 0;
        while i < zone_caps.len()
            invariant
                i <= zone_caps.len(),
                ns.zns_info == Some(info),
                forall|k: int| 0 <= k < i ==> 0 < #[trigger] zone_caps[k] <= info.zone_size,
            decreases zone_caps.len() - i,
        {
            if zone_caps[i] == 0 || zone_caps[i] > info.zone_size {
                assert(!(0 < zone_caps@[i as int] <= info.zone_size));
                return Err(FtlError::InvalidParam);
            }
            i = i + 1;
        }
        proof {
            assert(info.n_zones * info.zone_size <= ns.blocks) by (nonlinear_arith)
                requires
                    info.n_zones <= ns.blocks / info.zone_size,
                    info.zone_size > 0,
            ;
            assert(exposed_zones * info.zone_size <= info.n_zones * info.zone_size) by (nonlinear_arith)
                requires
                    exposed_zones <= info.n_zones,
            ;
            assert(exposed_zones * info.zone_size >= info.zone_size) by (nonlinear_arith)
                requires
                    exposed_zones >= 1,
            ;
            assert((exposed_zones * info.zone_size) % (info.zone_size as int) == 0) by (nonlinear_arith)
                requires
                    info.zone_size > 0,
            ;
        }
        let n_logical = exposed_zones * info.zone_size;
        let zones = ZNSZones::init(info.zone_size, zone_caps, exposed_zones);
        let map = ZNSMap::init(n_logical as usize, ns.blocks as usize);
        let mut zones_metadata: Vec<MapperZoneMetadata> = Vec::new();
        let mut z: u64 = 0;
        while z < info.n_zones
            invariant
                z <= info.n_zones,
                zones_metadata@.len() == z,
                forall|k: int| 0 <= k < z ==> #[trigger] zones_metadata@[k].invalid_blocks == 0,
            decreases info.n_zones - z,
        {
            zones_metadata.push(MapperZoneMetadata { invalid_blocks: 0, zone_age: 0 });
            z = z + 1;
        }
        let t = ZNSTarget {
            max_lba: n_logical - 1,
            exposed_zones,
            ns_id: ns.id,
            block_size: ns.block_size,
            zns_info: info,
            map,
            victim_selection_method,
            zones,
            zones_metadata,
        };
        proof {
            assert forall|l: int| 0 <= l < t.n_logical() implies #[trigger] t.mapping_ok(l) by {}
            assert forall|p: int| 0 <= p < t.n_phys() implies #[trigger] t.invalid_ok(p) by {}
            assert forall|z: int| 0 <= z < t.n_zones() implies #[trigger] t.counter_ok(z) by {
                lemma_zone_bounds_nonneg(z, t.zone_size());
                lemma_set_count_bound(t.invalid(), z * t.zone_size(), z * t.zone_size() + t.zone_size());
            }
            assert forall|p: int| 0 <= p < t.n_phys() implies #[trigger] t.block_ok(p) by {
                let zz = p / t.zone_size();
                assert(0 <= zz < t.n_zones()) by {
                    vstd::arithmetic::div_mod::lemma_div_is_ordered(p, t.n_phys(), t.zone_size());
                    vstd::arithmetic::div_mod::lemma_div_by_multiple(t.n_zones(), t.zone_size());
                    vstd::arithmetic::div_mod::lemma_fundamental_div_mod(p, t.zone_size());
                    if zz == t.n_zones() {
                        assert(zz * t.zone_size() <= p) by (nonlinear_arith)
                            requires
                                zz == p / t.zone_size(),
                                t.zone_size() > 0,
                                p >= 0,
                        ;
                    }
                }
                assert(t.pools().zone_ok(zz));
                assert(zz * t.zone_size() <= p) by (nonlinear_arith)
                    requires
                        zz == p / t.zone_size(),
                        t.zone_size() > 0,
                        p >= 0,
                ;
            }
        }
        Ok(t)
    }

    /// Block `p` of the zoned range lies in zone `zone_of(p)`.
    pub proof fn lemma_zone_range(&self, p: int)
        requires
            self.wf(),
            0 <= p < self.n_phys(),
        ensures
            0 <= self.zone_of(p) < self.n_zones(),
            self.zone_of(p) * self.zone_size() <= p < self.zone_of(p) * self.zone_size() + self.zone_size(),
            self.pools().zone_ok(self.zone_of(p)),
    {
        let s = self.zone_size();
        let z = p / s;
        vstd::arithmetic::div_mod::lemma_fundamental_div_mod(p, s);
        vstd::arithmetic::div_mod::lemma_mod_bound(p, s);
        assert(0 <= z) by (nonlinear_arith)
            requires
                z == p / s,
                s > 0,
                p >= 0,
        ;
        assert(z * s <= p) by (nonlinear_arith)
            requires
                p == s * z + p % s,
                p % s >= 0,
        ;
        assert(p < z * s + s) by (nonlinear_arith)
            requires
                p == s * z + p % s,
                p % s < s,
        ;
        assert(z < self.n_zones()) by (nonlinear_arith)
            requires
                z * s <= p,
                p < self.n_zones() * s,
                s > 0,
        ;
    }

    /// Blocks of zone `z` other than those below `wp` are neither mapped to nor invalid.
    proof fn lemma_unwritten(&self, z: int, p: int)
        requires
            self.wf(),
            0 <= z < self.n_zones(),
            self.zone_rec(z).wp <= p < z * self.zone_size() + self.zone_size(),
        ensures
            !self.invalid()[p],
            self.zone_of(p) == z,
            p < self.n_phys(),
            forall|l: int| 0 <= l < self.n_logical() ==> #[trigger] self.l2p()[l] != p,
    {
        assert(self.pools().zone_ok(z));
        lemma_zone_of(p, z, self.zone_size());
        assert(z * self.zone_size() + self.zone_size() <= self.n_phys()) by (nonlinear_arith)
            requires
                z < self.n_zones(),
                self.zone_size() > 0,
        ;
        assert(self.invalid_ok(p));
        assert forall|l: int| 0 <= l < self.n_logical() implies #[trigger] self.l2p()[l] != p by {
            assert(self.mapping_ok(l));
        }
    }

    /// Installs a completed append: logical blocks `[lba, lba + n)` now live at
    /// physical `[d, d + n)` of open zone `z` (position `zi` of the open set).
    /// The blocks they lived at before, and the blocks of the zone that the
    /// device skipped, become invalid; the zone's write pointer moves to
    /// `d + n` and the zone is parked as full or free.
    #[verifier::spinoff_prover]
    fn commit_append(&mut self, zi: usize, z: u64, lba: u64, n: u64, d: u64)
        requires
            old(self).wf(),
            zi < old(self).pools().open().len(),
            old(self).pools().open()[zi as int] == z,
            lba + n <= old(self).n_logical(),
            old(self).zone_rec(z as int).wp <= d,
            d + n <= old(self).zone_rec(z as int).zslba + old(self).zone_rec(z as int).zone_cap,
        ensures
            final(self).wf(),
            forall|l: int|
                0 <= l < old(self).n_logical() ==> #[trigger] final(self).l2p()[l] == if lba <= l < lba + n {
                    (d + (l - lba)) as u64
                } else {
                    old(self).l2p()[l]
                },
            final(self).n_logical() == old(self).n_logical(),
            final(self).spec_max_lba() == old(self).spec_max_lba(),
            final(self).spec_block_size() == old(self).spec_block_size(),
            final(self).zone_rec(z as int).wp == d + n,
            final(self).pools().table() == old(self).pools().table().update(
                z as int,
                MapperZone { wp: (d + n) as u64, ..old(self).zone_rec(z as int) },
            ),
            final(self).pools().open() == old(self).pools().open().remove(zi as int),
            final(self).zone_rec(z as int).spec_is_full() ==> final(self).pools().full() == old(
                self,
            ).pools().full().push(z) && final(self).pools().free() == old(self).pools().free(),
            !final(self).zone_rec(z as int).spec_is_full() ==> final(self).pools().free() == old(
                self,
            ).pools().free().push(z) && final(self).pools().full() == old(self).pools().full(),
            final(self).pools().op() == old(self).pools().op(),
            !final(self).pools().open().contains(z),
            final(self).metadata().len() == old(self).metadata().len(),
            forall|zz: int|
                0 <= zz < old(self).n_zones() ==> #[trigger] final(self).metadata()[zz].invalid_blocks == old(
                    self,
                ).metadata()[zz].invalid_blocks + charged(old(self).l2p(), lba as int, n as int, old(self).zone_size(), zz)
                    && final(self).metadata()[zz].zone_age == old(self).metadata()[zz].zone_age,
            forall|p: int|
                0 <= p < old(self).invalid().len() ==> #[trigger] final(self).invalid()[p] == (old(self).invalid()[p]
                    || (p < old(self).n_phys() && old(self).live(p) && lba <= old(self).p2l()[p] < lba + n) || (old(
                    self,
                ).zone_rec(z as int).wp <= p < d)),
            final(self).invalid().len() == old(self).invalid().len(),
    {
        proof {
            self.lemma_lens();
            assert(old(self).pools().open().contains(z));
            assert(z < old(self).n_zones());
            assert(old(self).pools().zone_ok(z as int));
        }
        let ghost t0 = *old(self);
        let zone_size = self.zones.zone_size_of();
        let wp = self.zones.zone(z).wp;
        let ghost zslba = t0.zone_rec(z as int).zslba as int;
        proof {
            assert(zslba + t0.zone_rec(z as int).zone_cap <= zslba + zone_size);
            assert(zslba + zone_size <= t0.n_phys()) by (nonlinear_arith)
                requires
                    zslba == z * zone_size,
                    z < t0.n_zones(),
                    zone_size > 0,
                    t0.n_phys() == t0.n_zones() * zone_size,
            ;
        }
        // Invalidate the blocks the run lived at.
        let mut i: u64 = 0;
        while i < n
            invariant
                t0.wf(),
                i <= n,
                lba + n <= t0.n_logical(),
                self.zones == t0.zones,
                self.zones_metadata@.len() == t0.zones_metadata@.len(),
                self.max_lba == t0.max_lba,
                self.block_size == t0.block_size,
                self.l2p() == t0.l2p(),
                self.p2l() == t0.p2l(),
                self.invalid().len() == t0.invalid().len(),
                self.zone_size() == zone_size,
                forall|p: int|
                    0 <= p < t0.invalid().len() ==> #[trigger] self.invalid()[p] == (t0.invalid()[p] || (p
                        < t0.n_phys() && t0.live(p) && lba <= t0.p2l()[p] < lba + i)),
                forall|z: int| 0 <= z < t0.n_zones() ==> #[trigger] self.counter_ok(z),
                t0.metadata().len() <= usize::MAX,
                forall|zz: int|
                    0 <= zz < t0.n_zones() ==> #[trigger] self.metadata()[zz].invalid_blocks == t0.metadata()[zz].invalid_blocks
                        + charged(t0.l2p(), lba as int, i as int, zone_size as int, zz)
                        && self.metadata()[zz].zone_age == t0.metadata()[zz].zone_age,
            decreases n - i,
        {
            let old_p = self.map.lookup(lba + i);
            if old_p != ZNS_MAP_UNMAPPED {
                proof {
                    assert(t0.mapping_ok((lba + i) as int));
                    t0.lemma_zone_range(old_p as int);
                }
                let ghost inv0 = self.invalid();
                let ghost t1 = *self;
                self.map.mark_invalid(old_p);
                let zn = old_p / zone_size;
                proof {
                    let s = zone_size as int;
                    assert(zn < t0.n_zones());
                    assert(zn * s + s <= t0.n_phys()) by (nonlinear_arith)
                        requires
                            zn < t0.n_zones(),
                            s > 0,
                            t0.n_phys() == t0.n_zones() * s,
                    ;
                    assert(!inv0[old_p as int]);
                    lemma_set_count_flip(inv0, zn * s, zn * s + s, old_p as int);
                    assert(self.invalid() == inv0.update(old_p as int, true));
                    lemma_set_count_bound(self.invalid(), zn * s, zn * s + s);
                    assert(t1.counter_ok(zn as int));
                    assert(t1.zone_invalid(zn as int) == set_count(inv0, zn * s, zn * s + s));
                    assert(self.metadata()[zn as int].invalid_blocks <= s - 1);
                    assert(s <= u64::MAX) by (nonlinear_arith)
                        requires
                            zn * s + s <= t0.n_phys(),
                            t0.n_phys() <= u64::MAX,
                            zn >= 0,
                            s > 0,
                    ;
                }
                let ib = self.zones_metadata[zn as usize].invalid_blocks;
                let age = self.zones_metadata[zn as usize].zone_age;
                let mut m = MapperZoneMetadata { invalid_blocks: ib, zone_age: age };
                m.incr_invalid_blocks(1);
                self.zones_metadata.set(zn as usize, m);
                proof {
                    assert forall|zz: int| 0 <= zz < t0.n_zones() implies #[trigger] self.metadata()[zz].invalid_blocks
                        == t0.metadata()[zz].invalid_blocks + charged(t0.l2p(), lba as int, i + 1, zone_size as int, zz)
                        && self.metadata()[zz].zone_age == t0.metadata()[zz].zone_age by {
                        assert(t0.l2p()[lba + (i + 1) - 1] == old_p);
                        assert(t1.metadata()[zz].invalid_blocks == t0.metadata()[zz].invalid_blocks + charged(
                            t0.l2p(),
                            lba as int,
                            i as int,
                            zone_size as int,
                            zz,
                        ));
                        if zz == zn {
                            assert(charged(t0.l2p(), lba as int, i + 1, zone_size as int, zz) == charged(
                                t0.l2p(),
                                lba as int,
                                i as int,
                                zone_size as int,
                                zz,
                            ) + 1);
                            assert(self.metadata()[zz].invalid_blocks == t1.metadata()[zz].invalid_blocks + 1);
                        } else {
                            assert(self.metadata()[zz] == t1.metadata()[zz]);
                        }
                    }
                    assert forall|z: int| 0 <= z < t0.n_zones() implies #[trigger] self.counter_ok(z) by {
                        assert(t1.counter_ok(z));
                        t0.lemma_zone_span(z);
                        let s = zone_size as int;
                        assert forall|p: int| z * s <= p < z * s + s && #[trigger] inv0[p] implies self.invalid()[p] by {}
                        lemma_set_count_mono(inv0, self.invalid(), z * s, z * s + s);
                        if z == zn {
                            assert(self.zone_invalid(z) == set_count(inv0, zn * s, zn * s + s) + 1);
                        }
                    }
                }
                proof {
                    assert forall|p: int| 0 <= p < t0.invalid().len() implies #[trigger] self.invalid()[p]
                        == (t0.invalid()[p] || (p < t0.n_phys() && t0.live(p) && lba <= t0.p2l()[p] < lba + i
                        + 1)) by {
                        if p != old_p && p < t0.n_phys() && t0.live(p) && t0.p2l()[p] == lba + i {
                            assert(false);
                        }
                    }
                }
            } else {
                proof {
                    assert forall|zz: int| 0 <= zz < t0.n_zones() implies #[trigger] self.metadata()[zz].invalid_blocks
                        == t0.metadata()[zz].invalid_blocks + charged(t0.l2p(), lba as int, i + 1, zone_size as int, zz)
                        && self.metadata()[zz].zone_age == t0.metadata()[zz].zone_age by {
                        assert(!is_mapped(t0.l2p()[lba + (i + 1) - 1]));
                    }
                    assert forall|p: int| 0 <= p < t0.invalid().len() implies #[trigger] self.invalid()[p]
                        == (t0.invalid()[p] || (p < t0.n_phys() && t0.live(p) && lba <= t0.p2l()[p] < lba + i
                        + 1)) by {
                        if p < t0.n_phys() && t0.live(p) && t0.p2l()[p] == lba + i {
                            assert(false);
                        }
                    }
                }
            }
            i = i + 1;
        }
        // Blocks the device skipped hold nothing that is referenced.
        let ghost t_loop = *self;
        self.map.mark_invalid_len(wp, d - wp);
        self.map.update_len(lba, d, n);
        self.zones.zone_incr_wp(z, d + n - wp);
        let full = self.zones.zone(z).is_full();
        if full {
            self.zones.park(zi, ZonePool::Full);
        } else {
            self.zones.park(zi, ZonePool::Free);
        }
        proof {
            let t1 = *self;
            let s = zone_size as int;
            assert(t1.zone_size() == t0.zone_size());
            assert forall|p: int| wp <= p < d + n implies #[trigger] t1.zone_of(p) == z && p < t0.n_phys() by {
                lemma_zone_of(p, z as int, s);
            }
            assert forall|p: int| 0 <= p < t0.n_phys() && t1.zone_of(p) != z implies #[trigger] t1.zone_rec(t1.zone_of(p))
                == t0.zone_rec(t0.zone_of(p)) by {
                t0.lemma_zone_range(p);
            }
            assert forall|l: int| 0 <= l < t1.n_logical() implies #[trigger] t1.mapping_ok(l) by {
                assert(t0.mapping_ok(l));
                if lba <= l < lba + n {
                    let p = d + (l - lba);
                    if wp <= p {
                        t0.lemma_unwritten(z as int, p);
                    }
                } else if is_mapped(t0.l2p()[l]) {
                    let p = t0.l2p()[l] as int;
                    t0.lemma_zone_range(p);
                    if t0.zone_of(p) == z {
                        assert(p < wp);
                    } else {
                        if wp <= p < d + n {
                            assert(t1.zone_of(p) == z);
                        }
                        assert(t1.zone_rec(t1.zone_of(p)) == t0.zone_rec(t0.zone_of(p)));
                    }
                    assert(t1.p2l()[p] == l);
                    if t0.live(p) && lba <= t0.p2l()[p] < lba + n {
                        assert(false);
                    }
                }
            }
            assert(t1.zone_rec(z as int).wp == d + n);
            assert forall|p: int| 0 <= p < t1.n_phys() implies #[trigger] t1.block_ok(p) && t1.invalid_ok(p) by {
                assert(t0.block_ok(p));
                assert(t0.invalid_ok(p));
                t0.lemma_zone_range(p);
                assert(t1.zone_of(p) == t0.zone_of(p));
                if t0.live(p) {
                    assert(t0.mapping_ok(t0.p2l()[p] as int));
                }
                if t1.zone_of(p) == z {
                    if d <= p < d + n {
                        assert(t1.p2l()[p] == lba + (p - d));
                        assert(t1.l2p()[lba + (p - d)] == p);
                        assert(t1.live(p));
                    } else if wp <= p < d {
                        assert(t1.invalid()[p]);
                    } else if p < wp {
                        assert(t1.written(p));
                        if t0.live(p) {
                            let l = t0.p2l()[p] as int;
                            if !(lba <= l < lba + n) {
                                assert(t1.l2p()[l] == p);
                                assert(t1.p2l()[p] == l);
                            } else {
                                assert(t1.invalid()[p]);
                            }
                        } else {
                            assert(t1.invalid()[p]);
                        }
                    } else {
                        t0.lemma_unwritten(z as int, p);
                        assert(!t0.live(p));
                        assert(!t1.invalid()[p]);
                    }
                } else {
                    assert(t1.zone_rec(t1.zone_of(p)) == t0.zone_rec(t0.zone_of(p)));
                    if wp <= p < d + n {
                        assert(t1.zone_of(p) == z);
                    }
                    assert(t1.written(p) == t0.written(p));
                    if t0.live(p) {
                        let l = t0.p2l()[p] as int;
                        if !(lba <= l < lba + n) {
                            assert(t1.l2p()[l] == p);
                            assert(t1.p2l()[p] == l);
                        }
                    }
                }
            }
            assert forall|p: int| 0 <= p < t1.n_phys() implies #[trigger] t1.invalid_ok(p) by {
                assert(t1.block_ok(p) && t1.invalid_ok(p));
            }
            t1.lemma_counters_kept(&t_loop);
            assert(t1.metadata() == t_loop.metadata());
            assert forall|zz: int| 0 <= zz < t0.n_zones() implies #[trigger] t1.metadata()[zz].invalid_blocks
                == t0.metadata()[zz].invalid_blocks + charged(t0.l2p(), lba as int, n as int, t0.zone_size(), zz)
                && t1.metadata()[zz].zone_age == t0.metadata()[zz].zone_age by {
                assert(t_loop.metadata()[zz].invalid_blocks == t0.metadata()[zz].invalid_blocks + charged(
                    t0.l2p(),
                    lba as int,
                    n as int,
                    zone_size as int,
                    zz,
                ));
            }
            if t1.zone_rec(z as int).spec_is_full() {
                assert(t1.pools().full()[t1.pools().full().len() - 1] == z);
            } else {
                assert(t1.pools().free()[t1.pools().free().len() - 1] == z);
            }
            t1.pools().lemma_parked_not_open(z);
        }
    }

    /// Zone `z` spans `[z * zone_size, (z + 1) * zone_size)` within the zoned blocks.
    proof fn lemma_zone_span(&self, z: int)
        requires
            self.pools().wf(),
            0 <= z < self.n_zones(),
        ensures
            0 <= z * self.zone_size(),
            z * self.zone_size() + self.zone_size() <= self.n_phys(),
    {
        let s = self.zone_size();
        assert(0 <= z * s && z * s + s <= self.n_zones() * s) by (nonlinear_arith)
            requires
                0 <= z < self.n_zones(),
                s > 0,
        ;
    }

    /// Counters stay within the invalid blocks they count when bits are only set.
    proof fn lemma_counters_kept(&self, prev: &Self)
        requires
            prev.pools().wf(),
            prev.n_phys() <= prev.invalid().len(),
            forall|z: int| 0 <= z < prev.n_zones() ==> #[trigger] prev.counter_ok(z),
            self.zone_size() == prev.zone_size(),
            self.n_zones() == prev.n_zones(),
            self.metadata() == prev.metadata(),
            self.invalid().len() == prev.invalid().len(),
            forall|p: int| 0 <= p < prev.invalid().len() && #[trigger] prev.invalid()[p] ==> self.invalid()[p],
        ensures
            forall|z: int| 0 <= z < self.n_zones() ==> #[trigger] self.counter_ok(z),
    {
        assert forall|z: int| 0 <= z < self.n_zones() implies #[trigger] self.counter_ok(z) by {
            assert(prev.counter_ok(z));
            prev.lemma_zone_span(z);
            let s = prev.zone_size();
            lemma_set_count_mono(prev.invalid(), self.invalid(), z * s, z * s + s);
        }
    }

    /// A state that differs from `t0` only in where zones are parked.
    proof fn lemma_pools_moved(&self, t0: &Self)
        requires
            t0.wf(),
            self.pools().wf(),
            self.pools().table() == t0.pools().table(),
            self.pools().zone_size() == t0.pools().zone_size(),
            self.l2p() == t0.l2p(),
            self.p2l() == t0.p2l(),
            self.invalid() == t0.invalid(),
            self.metadata() == t0.metadata(),
            self.spec_block_size() == t0.spec_block_size(),
            self.spec_max_lba() == t0.spec_max_lba(),
        ensures
            self.wf(),
    {
        assert forall|z: int| 0 <= z < self.n_zones() implies #[trigger] self.counter_ok(z) by {
            assert(t0.counter_ok(z));
        }
        assert forall|l: int| 0 <= l < self.n_logical() implies #[trigger] self.mapping_ok(l) by {
            assert(t0.mapping_ok(l));
        }
        assert forall|p: int| 0 <= p < self.n_phys() implies #[trigger] self.block_ok(p) by {
            assert(t0.block_ok(p));
        }
        assert forall|p: int| 0 <= p < self.n_phys() implies #[trigger] self.invalid_ok(p) by {
            assert(t0.invalid_ok(p));
        }
    }

    /// Number of blocks `len` bytes occupy.
    fn blocks_of(&self, len: usize) -> (r: u64)
        requires
            self.wf(),
        ensures
            r == blocks_for(len as int, self.spec_block_size() as int),
    {
        let b = self.block_size;
        let len64 = len as u64;
        let q = len64 / b;
        let rem = len64 % b;
        proof {
            vstd::arithmetic::div_mod::lemma_fundamental_div_mod(len64 as int, b as int);
            if rem != 0 {
                assert(q < u64::MAX) by (nonlinear_arith)
                    requires
                        len64 == b * q + rem,
                        rem >= 1,
                        b >= 1,
                        q >= 0,
                        len64 <= u64::MAX,
                ;
            }
        }
        if rem == 0 {
            q
        } else {
            q + 1
        }
    }

    /// The bytes of a buffer of `len` bytes that blocks `[offset, offset + k)`
    /// cover.
    fn byte_span(&self, len: usize, offset: u64, k: u64) -> (r: (usize, usize))
        requires
            self.wf(),
            offset < blocks_for(len as int, self.spec_block_size() as int),
            k >= 1,
        ensures
            byte_span_ok(len as int, self.spec_block_size() as int, offset as int, k as int, r.0 as int, r.1 as int),
    {
        let b = self.block_size;
        proof {
            lemma_block_in_buffer(len as int, b as int, offset as int);
        }
        let lo = (offset * b) as usize;
        let rem = len - lo;
        let q = (rem as u64) / b;
        proof {
            vstd::arithmetic::div_mod::lemma_fundamental_div_mod(rem as int, b as int);
            vstd::arithmetic::div_mod::lemma_mod_bound(rem as int, b as int);
        }
        if k <= q {
            proof {
                assert(k * b <= rem) by (nonlinear_arith)
                    requires
                        k <= q,
                        rem as int == b * q + (rem as int) % (b as int),
                        (rem as int) % (b as int) >= 0,
                        b >= 1,
                ;
                assert((offset + k) * b == offset * b + k * b) by (nonlinear_arith);
                if k * b == rem {
                    assert((offset + k) * b == len);
                }
            }
            let hi = lo + (k * b) as usize;
            proof {
                assert(k * b >= 1) by (nonlinear_arith)
                    requires
                        k >= 1,
                        b >= 1,
                ;
                assert(lo == offset * b);
                assert(hi == (offset + k) * b);
                assert(hi <= len);
            }
            if hi == len {
                (lo, len)
            } else {
                (lo, hi)
            }
        } else {
            proof {
                assert(k * b > rem) by (nonlinear_arith)
                    requires
                        k >= q + 1,
                        rem as int == b * q + (rem as int) % (b as int),
                        (rem as int) % (b as int) < b,
                        b >= 1,
                ;
                assert((offset + k) * b == offset * b + k * b) by (nonlinear_arith);
                assert(lo == offset * b);
                assert((offset + k) * b > len);
            }
            (lo, len)
        }
    }

    /// Starts a write of `len` bytes at logical block `lba`. Fails if the
    /// blocks they occupy reach past the last exposed logical block.
    pub fn write_begin(&self, len: usize, lba: u64) -> (r: Result<WriteOp, FtlError>)
        requires
            self.wf(),
        ensures
            match r {
                Ok(op) => {
                    &&& lba + blocks_for(len as int, self.spec_block_size() as int) <= self.spec_max_lba()
                    &&& op.spec_len() == len
                    &&& op.spec_start() == lba
                    &&& op.spec_lba() == lba
                    &&& op.spec_blocks() == blocks_for(len as int, self.spec_block_size() as int)
                    &&& op.spec_pending() is None
                    &&& op.placed().len() == 0
                    &&& write_visible(*self, op)
                },
                Err(e) => e == FtlError::OutOfBounds && lba + blocks_for(len as int, self.spec_block_size() as int)
                    > self.spec_max_lba(),
            },
    {
        let blocks = match self.blocks_in_bounds(len, lba) {
            Some(b) => b,
            None => return Err(FtlError::OutOfBounds),
        };
        Ok(WriteOp { len, start: lba, lba, blocks, pending: None, placed: Ghost(Seq::empty()) })
    }

    /// The number of blocks `len` bytes occupy, if those blocks from `lba`
    /// end no later than the last exposed logical block.
    fn blocks_in_bounds(&self, len: usize, lba: u64) -> (r: Option<u64>)
        requires
            self.wf(),
        ensures
            match r {
                Some(b) => b == blocks_for(len as int, self.spec_block_size() as int) && lba + b
                    <= self.spec_max_lba(),
                None => lba + blocks_for(len as int, self.spec_block_size() as int) > self.spec_max_lba(),
            },
    {
        let blocks = self.blocks_of(len);
        if lba > self.max_lba || blocks > self.max_lba - lba {
            return None;
        }
        Some(blocks)
    }

    /// Plans the next append of a write: takes the last free zone into the
    /// open set and appends to it, from the write's next block, the longest
    /// run of blocks that are all mapped or all unmapped and that fits in the
    /// zone's remaining capacity and in the write. Returns `Done` once every
    /// block is placed.
    pub fn write(&mut self, op: &mut WriteOp) -> (r: Result<WriteAction, FtlError>)
        requires
            old(self).wf(),
        ensures
            final(self).wf(),
            final(self).spec_block_size() == old(self).spec_block_size(),
            final(self).spec_max_lba() == old(self).spec_max_lba(),
            final(self).metadata() == old(self).metadata(),
            final(self).l2p() == old(self).l2p(),
            final(self).p2l() == old(self).p2l(),
            final(self).invalid() == old(self).invalid(),
            final(self).pools().table() == old(self).pools().table(),
            final(op).spec_start() == old(op).spec_start(),
            final(op).spec_len() == old(op).spec_len(),
            final(op).spec_lba() == old(op).spec_lba(),
            final(op).spec_blocks() == old(op).spec_blocks(),
            final(op).placed() == old(op).placed(),
            match r {
                Ok(WriteAction::Done) => {
                    &&& old(op).spec_pending() is None
                    &&& write_op_ok(*old(self), *old(op))
                    &&& old(op).spec_blocks() == 0
                    &&& final(self).pools().same_as(&old(self).pools())
                    &&& final(op).spec_pending() is None
                },
                Ok(WriteAction::Append { zslba, offset, blocks, byte_start, byte_end }) => {
                    let z = old(self).pools().free().last();
                    let zone = old(self).zone_rec(z as int);
                    let lba = old(op).spec_lba() as int;
                    let room = zone.zslba + zone.zone_cap - zone.wp;
                    let length = if old(op).spec_blocks() < room { old(op).spec_blocks() as int } else { room };
                    &&& old(op).spec_pending() is None
                    &&& old(self).pools().free().len() > 0
                    &&& final(self).pools().free() == old(self).pools().free().drop_last()
                    &&& final(self).pools().open() == old(self).pools().open().push(z)
                    &&& final(self).pools().full() == old(self).pools().full()
                    &&& final(self).pools().op() == old(self).pools().op()
                    &&& zslba == zone.zslba
                    &&& offset == lba - old(op).spec_start()
                    &&& write_op_ok(*old(self), *old(op))
                    &&& byte_span_ok(
                        old(op).spec_len() as int,
                        old(self).spec_block_size() as int,
                        offset as int,
                        blocks as int,
                        byte_start as int,
                        byte_end as int,
                    )
                    &&& 1 <= blocks <= length
                    &&& same_mapping_run(old(self).l2p(), lba, blocks as int)
                    &&& blocks < length ==> is_mapped(old(self).l2p()[lba + blocks]) != is_mapped(
                        old(self).l2p()[lba],
                    )
                    &&& final(op).spec_pending() == Some(PendingAppend { zone: z, lba: lba as u64, blocks })
                },
                Err(e) => {
                    &&& final(self).pools().same_as(&old(self).pools())
                    &&& final(op).spec_pending() == old(op).spec_pending()
                    &&& e == FtlError::NoFreeZones ==> old(self).pools().free().len() == 0 && old(
                        op,
                    ).spec_blocks() > 0
                    &&& (e == FtlError::NoFreeZones || e == FtlError::Fatal)
                    &&& (old(op).spec_pending() is None && write_op_ok(*old(self), *old(op))) <==> e
                        == FtlError::NoFreeZones
                },
            },
    {
        if op.pending.is_some() || op.lba < op.start || op.lba > self.max_lba || op.blocks > self.max_lba
            - op.lba || op.lba - op.start + op.blocks != self.blocks_of(op.len) {
            return Err(FtlError::Fatal);
        }
        if op.blocks == 0 {
            return Ok(WriteAction::Done);
        }
        let ghost t0 = *old(self);
        let z = match self.zones.pop_free() {
            Some(z) => z,
            None => {
                proof {
                    self.lemma_pools_moved(&t0);
                }
                return Err(FtlError::NoFreeZones);
            },
        };
        proof {
            self.lemma_pools_moved(&t0);
            assert(t0.pools().free()[t0.pools().free().len() - 1] < t0.n_zones());
            assert(t0.pools().zone_ok(z as int));
        }
        let zone = self.zones.zone(z);
        let zslba = zone.zslba;
        let room = zone.zslba + zone.zone_cap - zone.wp;
        let length = if op.blocks < room {
            op.blocks
        } else {
            room
        };
        let k = self.map.lookup_contiguous_map(op.lba, length);
        proof {
            if k == 0 {
                assert(is_mapped(self.l2p()[op.lba + 0]) != is_mapped(self.l2p()[op.lba as int]));
            }
        }
        let offset = op.lba - op.start;
        let (byte_start, byte_end) = self.byte_span(op.len, offset, k);
        op.pending = Some(PendingAppend { zone: z, lba: op.lba, blocks: k });
        Ok(WriteAction::Append { zslba, offset, blocks: k, byte_start, byte_end })
    }

    /// Checks on a completion of `op`'s pending append at `d_lba`; returns
    /// the position of its zone in the open set.
    fn check_completion(&self, op: &WriteOp, d_lba: u64) -> (r: Option<usize>)
        requires
            self.wf(),
        ensures
            r is Some <==> completion_ok(*self, *op, d_lba),
            r matches Some(i) ==> i < self.pools().open().len() && self.pools().open()[i as int]
                == op.spec_pending().unwrap().zone,
    {
        let p = match op.pending {
            Some(p) => p,
            None => return None,
        };
        let zi = match self.zones.open_index(p.zone) {
            Some(i) => i,
            None => return None,
        };
        proof {
            assert(self.pools().open().contains(p.zone));
            assert(self.pools().zone_ok(p.zone as int));
        }
        if p.lba != op.lba || p.blocks == 0 || p.blocks > op.blocks || op.lba < op.start || op.lba
            > self.max_lba || p.blocks > self.max_lba - op.lba {
            return None;
        }
        let zone = self.zones.zone(p.zone);
        if d_lba < zone.wp || d_lba > zone.zslba + zone.zone_cap || p.blocks > zone.zslba + zone.zone_cap
            - d_lba {
            return None;
        }
        Some(zi)
    }

    /// Installs the pending append of `op`, which the device completed at
    /// physical block `d_lba`: the appended logical blocks now map to
    /// `[d_lba, d_lba + n)`, the blocks they lived at and the blocks of the
    /// zone the device skipped become invalid, and the zone is parked in the
    /// full pool if the append filled it, else in the free pool. Fails,
    /// changing nothing, if `op` has no pending append or the completion does
    /// not fit the zone.
    pub fn write_complete(&mut self, op: &mut WriteOp, d_lba: u64) -> (r: Result<(), FtlError>)
        requires
            old(self).wf(),
        ensures
            final(self).wf(),
            r is Ok <==> completion_ok(*old(self), *old(op), d_lba),
            final(op).spec_start() == old(op).spec_start(),
            final(op).spec_len() == old(op).spec_len(),
            final(self).spec_max_lba() == old(self).spec_max_lba(),
            final(self).spec_block_size() == old(self).spec_block_size(),
            match r {
                Ok(()) => {
                    let p = old(op).spec_pending().unwrap();
                    let n = p.blocks as int;
                    let lba = p.lba as int;
                    &&& forall|l: int|
                        0 <= l < old(self).n_logical() ==> #[trigger] final(self).l2p()[l] == if lba <= l
                            < lba + n {
                            (d_lba + (l - lba)) as u64
                        } else {
                            old(self).l2p()[l]
                        }
                    &&& final(self).zone_rec(p.zone as int).wp == d_lba + n
                    &&& final(self).zone_rec(p.zone as int).spec_is_full() ==> final(self).pools().full()
                        == old(self).pools().full().push(p.zone) && final(self).pools().free() == old(
                        self,
                    ).pools().free()
                    &&& !final(self).zone_rec(p.zone as int).spec_is_full() ==> final(self).pools().free()
                        == old(self).pools().free().push(p.zone) && final(self).pools().full() == old(
                        self,
                    ).pools().full()
                    &&& final(self).pools().op() == old(self).pools().op()
                    &&& leaves_open(old(self).pools().open(), final(self).pools().open(), p.zone)
                    &&& !final(self).pools().open().contains(p.zone)
                    &&& forall|z: int|
                        0 <= z < old(self).n_zones() ==> #[trigger] final(self).metadata()[z].invalid_blocks
                            == old(self).metadata()[z].invalid_blocks + charged(
                            old(self).l2p(),
                            lba,
                            n,
                            old(self).zone_size(),
                            z,
                        ) && final(self).metadata()[z].zone_age == old(self).metadata()[z].zone_age
                    &&& forall|q: int|
                        0 <= q < old(self).invalid().len() ==> #[trigger] final(self).invalid()[q] == (old(
                            self,
                        ).invalid()[q] || (q < old(self).n_phys() && old(self).live(q) && lba <= old(self).p2l()[q]
                            < lba + n) || (old(self).zone_rec(p.zone as int).wp <= q < d_lba))
                    &&& final(op).spec_lba() == lba + n
                    &&& final(op).spec_blocks() == old(op).spec_blocks() - n
                    &&& final(op).spec_pending() is None
                    &&& final(op).placed() == old(op).placed() + Seq::new(n as nat, |i: int| (d_lba + i) as u64)
                    &&& write_visible(*old(self), *old(op)) ==> write_visible(*final(self), *final(op))
                },
                Err(e) => {
                    &&& e == FtlError::Fatal
                    &&& final(self).pools().same_as(&old(self).pools())
                    &&& final(self).l2p() == old(self).l2p()
                    &&& *final(op) == *old(op)
                },
            },
    {
        let zi = match self.check_completion(op, d_lba) {
            Some(zi) => zi,
            None => return Err(FtlError::Fatal),
        };
        let p = op.pending.unwrap();
        let ghost t0 = *old(self);
        let ghost op0 = *old(op);
        self.commit_append(zi, p.zone, p.lba, p.blocks, d_lba);
        op.lba = op.lba + p.blocks;
        op.blocks = op.blocks - p.blocks;
        op.pending = None;
        op.placed = Ghost(op.placed@ + Seq::new(p.blocks as nat, |i: int| (d_lba + i) as u64));
        proof {
            if write_visible(t0, op0) {
                assert forall|i: int| 0 <= i < op.placed().len() implies #[trigger] self.l2p()[op.spec_start() + i]
                    == op.placed()[i] by {
                    if i < op0.placed().len() {
                        assert(t0.l2p()[op0.spec_start() + i] == op0.placed()[i]);
                    }
                }
            }
        }
        Ok(())
    }

    /// The device refused `op`'s pending append because its zone is full:
    /// the zone's unwritten blocks become invalid and the zone is parked in
    /// the full pool; the write goes on with another zone. Fails, changing
    /// nothing, if `op` has no pending append in an open zone.
    pub fn write_zone_full(&mut self, op: &mut WriteOp) -> (r: Result<(), FtlError>)
        requires
            old(self).wf(),
        ensures
            final(self).wf(),
            final(self).l2p() == old(self).l2p(),
            final(op).spec_start() == old(op).spec_start(),
            final(op).spec_len() == old(op).spec_len(),
            final(op).spec_lba() == old(op).spec_lba(),
            final(op).spec_blocks() == old(op).spec_blocks(),
            final(op).placed() == old(op).placed(),
            final(self).spec_max_lba() == old(self).spec_max_lba(),
            final(self).spec_block_size() == old(self).spec_block_size(),
            r is Ok <==> (old(op).spec_pending() matches Some(p) && old(self).pools().open().contains(p.zone)),
            match r {
                Ok(()) => {
                    let z = old(op).spec_pending().unwrap().zone;
                    let m = old(self).zone_rec(z as int);
                    &&& final(self).zone_rec(z as int).wp == m.zslba + m.zone_cap
                    &&& final(self).pools().full() == old(self).pools().full().push(z)
                    &&& final(self).pools().free() == old(self).pools().free()
                    &&& final(self).pools().op() == old(self).pools().op()
                    &&& leaves_open(old(self).pools().open(), final(self).pools().open(), z)
                    &&& !final(self).pools().open().contains(z)
                    &&& final(self).metadata() == old(self).metadata()
                    &&& forall|q: int|
                        0 <= q < old(self).invalid().len() ==> #[trigger] final(self).invalid()[q] == (old(
                            self,
                        ).invalid()[q] || m.wp <= q < m.zslba + m.zone_cap)
                    &&& final(op).spec_pending() is None
                },
                Err(e) => e == FtlError::Fatal && final(self).pools().same_as(&old(self).pools())
                    && *final(op) == *old(op),
            },
    {
        let p = match op.pending {
            Some(p) => p,
            None => return Err(FtlError::Fatal),
        };
        let zi = match self.zones.open_index(p.zone) {
            Some(i) => i,
            None => return Err(FtlError::Fatal),
        };
        proof {
            assert(self.pools().open().contains(p.zone));
            assert(self.pools().zone_ok(p.zone as int));
        }
        let zone = self.zones.zone(p.zone);
        let end = zone.zslba + zone.zone_cap;
        let ghost t0 = *old(self);
        self.commit_append(zi, p.zone, 0, 0, end);
        proof {
            assert(self.l2p() =~= t0.l2p());
            assert forall|z: int| 0 <= z < self.metadata().len() implies #[trigger] self.metadata()[z] == t0.metadata()[z] by {
                assert(charged(t0.l2p(), 0, 0, t0.zone_size(), z) == 0);
                assert(self.metadata()[z].invalid_blocks == t0.metadata()[z].invalid_blocks);
                assert(self.metadata()[z].zone_age == t0.metadata()[z].zone_age);
            }
            assert(self.metadata() =~= t0.metadata());
        }
        op.pending = None;
        Ok(())
    }

    /// Gives up `op`'s pending append after a device failure: its zone goes
    /// back to the free pool, or to the full pool if it is full.
    pub fn write_abort(&mut self, op: &mut WriteOp)
        requires
            old(self).wf(),
        ensures
            final(self).wf(),
            final(self).l2p() == old(self).l2p(),
            final(self).p2l() == old(self).p2l(),
            final(self).invalid() == old(self).invalid(),
            final(self).metadata() == old(self).metadata(),
            final(self).pools().table() == old(self).pools().table(),
            final(self).pools().op() == old(self).pools().op(),
            final(op).spec_start() == old(op).spec_start(),
            final(op).spec_len() == old(op).spec_len(),
            final(op).spec_lba() == old(op).spec_lba(),
            final(op).spec_blocks() == old(op).spec_blocks(),
            final(op).placed() == old(op).placed(),
            final(op).spec_pending() is None,
            final(self).spec_max_lba() == old(self).spec_max_lba(),
            final(self).spec_block_size() == old(self).spec_block_size(),
            old(op).spec_pending() matches Some(p) && old(self).pools().open().contains(p.zone) ==> {
                let z = old(op).spec_pending().unwrap().zone;
                &&& !final(self).pools().open().contains(z)
                &&& leaves_open(old(self).pools().open(), final(self).pools().open(), z)
                &&& if old(self).zone_rec(z as int).spec_is_full() {
                    final(self).pools().full() == old(self).pools().full().push(z) && final(self).pools().free()
                        == old(self).pools().free()
                } else {
                    final(self).pools().free() == old(self).pools().free().push(z) && final(self).pools().full()
                        == old(self).pools().full()
                }
            },
            !(old(op).spec_pending() matches Some(p) && old(self).pools().open().contains(p.zone))
                ==> final(self).pools().same_as(&old(self).pools()),
    {
        if let Some(p) = op.pending {
            if self.zones.open_index(p.zone).is_some() {
                proof {
                    self.pools().lemma_open_member(p.zone);
                    assert(self.pools().zone_ok(p.zone as int));
                }
                let full = self.zones.zone(p.zone).is_full();
                if full {
                    self.park_zone(p.zone, ZonePool::Full);
                    proof {
                        let f = self.pools().full();
                        assert(f[f.len() - 1] == p.zone);
                        self.pools().lemma_parked_not_open(p.zone);
                    }
                } else {
                    self.park_zone(p.zone, ZonePool::Free);
                    proof {
                        let f = self.pools().free();
                        assert(f[f.len() - 1] == p.zone);
                        self.pools().lemma_parked_not_open(p.zone);
                    }
                }
            }
        }
        op.pending = None;
    }

    /// Starts a read of `len` bytes at logical block `lba`. Fails if the
    /// blocks they occupy reach past the last exposed logical block.
    pub fn read_begin(&self, len: usize, lba: u64) -> (r: Result<ReadOp, FtlError>)
        requires
            self.wf(),
        ensures
            match r {
                Ok(op) => {
                    &&& lba + blocks_for(len as int, self.spec_block_size() as int) <= self.spec_max_lba()
                    &&& op.spec_len() == len
                    &&& op.spec_start() == lba
                    &&& op.spec_lba() == lba
                    &&& op.spec_blocks() == blocks_for(len as int, self.spec_block_size() as int)
                    &&& op.fetched().len() == 0
                    &&& read_current(*self, op)
                },
                Err(e) => e == FtlError::OutOfBounds && lba + blocks_for(len as int, self.spec_block_size() as int)
                    > self.spec_max_lba(),
            },
    {
        let blocks = match self.blocks_in_bounds(len, lba) {
            Some(b) => b,
            None => return Err(FtlError::OutOfBounds),
        };
        Ok(ReadOp { len, start: lba, lba, blocks, fetched: Ghost(Seq::empty()) })
    }

    /// Plans the next device read of `op`: the longest run of logical blocks
    /// from the read's next block whose physical blocks ascend one by one,
    /// within the read and within the zone of the first of them. Returns
    /// `None` once every block is fetched. Fails if a block of the run is
    /// unmapped.
    pub fn read(&self, op: &mut ReadOp) -> (r: Result<Option<ReadRun>, FtlError>)
        requires
            self.wf(),
        ensures
            final(op).spec_start() == old(op).spec_start(),
            final(op).spec_len() == old(op).spec_len(),
            match r {
                Ok(None) => old(op).spec_blocks() == 0 && *final(op) == *old(op),
                Ok(Some(run)) => {
                    let lba = old(op).spec_lba() as int;
                    let d = self.l2p()[lba] as int;
                    let s = self.zone_size();
                    let length = if old(op).spec_blocks() < (d / s) * s + s - d {
                        old(op).spec_blocks() as int
                    } else {
                        (d / s) * s + s - d
                    };
                    &&& old(op).spec_blocks() > 0
                    &&& is_mapped(self.l2p()[lba])
                    &&& run.d_lba == d
                    &&& run.zone == d / s
                    &&& run.offset == lba - old(op).spec_start()
                    &&& read_op_ok(*self, *old(op))
                    &&& byte_span_ok(
                        old(op).spec_len() as int,
                        self.spec_block_size() as int,
                        run.offset as int,
                        run.blocks as int,
                        run.byte_start as int,
                        run.byte_end as int,
                    )
                    &&& 1 <= run.blocks <= length
                    &&& physical_run(self.l2p(), lba, run.blocks as int)
                    &&& run.blocks < length ==> is_mapped(self.l2p()[lba + run.blocks]) && self.l2p()[lba
                        + run.blocks] != d + run.blocks
                    &&& final(op).spec_lba() == lba + run.blocks
                    &&& final(op).spec_blocks() == old(op).spec_blocks() - run.blocks
                    &&& final(op).fetched() == old(op).fetched() + Seq::new(
                        run.blocks as nat,
                        |i: int| (d + i) as u64,
                    )
                    &&& read_current(*self, *old(op)) ==> read_current(*self, *final(op))
                },
                Err(e) => {
                    &&& *final(op) == *old(op)
                    &&& old(op).spec_blocks() > 0
                    &&& (e == FtlError::NotMapped || e == FtlError::Fatal)
                    &&& read_op_ok(*self, *old(op)) <==> e == FtlError::NotMapped
                    &&& e == FtlError::NotMapped ==> {
                        let lba = old(op).spec_lba() as int;
                        let d = self.l2p()[lba] as int;
                        let s = self.zone_size();
                        !is_mapped(self.l2p()[lba]) || run_hits_unmapped(
                            self.l2p(),
                            lba,
                            if old(op).spec_blocks() < (d / s) * s + s - d {
                                old(op).spec_blocks() as int
                            } else {
                                (d / s) * s + s - d
                            },
                        )
                    }
                },
            },
    {
        if op.blocks == 0 {
            return Ok(None);
        }
        if op.lba < op.start || op.lba > self.max_lba || op.blocks > self.max_lba - op.lba || op.lba
            - op.start + op.blocks != self.blocks_of(op.len) {
            return Err(FtlError::Fatal);
        }
        let d = self.map.lookup(op.lba);
        if d == ZNS_MAP_UNMAPPED {
            return Err(FtlError::NotMapped);
        }
        let zone_size = self.zones.zone_size_of();
        proof {
            assert(self.mapping_ok(op.lba as int));
            self.lemma_zone_range(d as int);
            let zz = self.zone_of(d as int);
            assert(zz * zone_size + zone_size <= self.n_phys()) by (nonlinear_arith)
                requires
                    zz < self.n_zones(),
                    zone_size > 0,
                    self.n_phys() == self.n_zones() * zone_size,
            ;
        }
        let zone = d / zone_size;
        let boundary = zone * zone_size + zone_size;
        let length = if op.blocks < boundary - d {
            op.blocks
        } else {
            boundary - d
        };
        let k = match self.map.lookup_contiguous_physical(op.lba, length) {
            Ok(k) => k,
            Err(e) => return Err(e),
        };
        let offset = op.lba - op.start;
        let (byte_start, byte_end) = self.byte_span(op.len, offset, k);
        let ghost op0 = *old(op);
        op.lba = op.lba + k;
        op.blocks = op.blocks - k;
        op.fetched = Ghost(op.fetched@ + Seq::new(k as nat, |i: int| (d + i) as u64));
        proof {
            if read_current(*self, op0) {
                assert forall|i: int| 0 <= i < op.fetched().len() implies #[trigger] self.l2p()[op.spec_start() + i]
                    == op.fetched()[i] by {
                    if i < op0.fetched().len() {
                        assert(self.l2p()[op0.spec_start() + i] == op0.fetched()[i]);
                    } else {
                        let j = i - op0.fetched().len();
                        assert(physical_run(self.l2p(), op0.spec_lba() as int, k as int));
                        assert(self.l2p()[op0.spec_lba() + j] == d + j);
                    }
                }
            }
        }
        Ok(Some(ReadRun { zone, d_lba: d, offset, blocks: k, byte_start, byte_end }))
    }

    /// Installs a completed copy: the valid physical blocks `[from, from + n)`
    /// of open zone `v` were appended at `[d, d + n)` of open zone `w`. The
    /// logical blocks they back now map to the copies, the originals become
    /// invalid, as do the blocks of `w` the device skipped, and the write
    /// pointer of `w` moves to `d + n`.
    #[verifier::spinoff_prover]
    #[verifier::rlimit(50)]
    fn commit_copy(&mut self, v: u64, w: u64, from: u64, n: u64, d: u64)
        requires
            old(self).wf(),
            old(self).pools().open().contains(v),
            old(self).pools().open().contains(w),
            v != w,
            old(self).zone_rec(v as int).spec_is_full(),
            old(self).zone_rec(v as int).zslba <= from,
            from + n <= old(self).zone_rec(v as int).zslba + old(self).zone_rec(v as int).zone_cap,
            forall|i: int| 0 <= i < n ==> !#[trigger] old(self).invalid()[from + i],
            old(self).zone_rec(w as int).wp <= d,
            d + n <= old(self).zone_rec(w as int).zslba + old(self).zone_rec(w as int).zone_cap,
        ensures
            final(self).wf(),
            forall|l: int|
                0 <= l < old(self).n_logical() ==> #[trigger] final(self).l2p()[l] == if from <= old(self).l2p()[l]
                    < from + n {
                    (d + (old(self).l2p()[l] - from)) as u64
                } else {
                    old(self).l2p()[l]
                },
            final(self).n_logical() == old(self).n_logical(),
            final(self).spec_max_lba() == old(self).spec_max_lba(),
            final(self).spec_block_size() == old(self).spec_block_size(),
            final(self).pools().table() == old(self).pools().table().update(
                w as int,
                MapperZone { wp: (d + n) as u64, ..old(self).zone_rec(w as int) },
            ),
            final(self).pools().free() == old(self).pools().free(),
            final(self).pools().full() == old(self).pools().full(),
            final(self).pools().op() == old(self).pools().op(),
            final(self).pools().open() == old(self).pools().open(),
    {
        let ghost t0 = *old(self);
        let zone_size = self.zones.zone_size_of();
        proof {
            self.lemma_lens();
            assert(t0.pools().zone_ok(v as int));
            assert(t0.pools().zone_ok(w as int));
            t0.pools().lemma_open_member(v);
            t0.pools().lemma_open_member(w);
        }
        let wp = self.zones.zone(w).wp;
        let ghost s = zone_size as int;
        let ghost vz = t0.zone_rec(v as int).zslba as int;
        let ghost wz = t0.zone_rec(w as int).zslba as int;
        proof {
            assert(vz + s <= t0.n_phys() && wz + s <= t0.n_phys()) by (nonlinear_arith)
                requires
                    vz == v * s,
                    wz == w * s,
                    v < t0.n_zones(),
                    w < t0.n_zones(),
                    s > 0,
                    t0.n_phys() == t0.n_zones() * s,
            ;
            assert(vz + s <= wz || wz + s <= vz) by (nonlinear_arith)
                requires
                    vz == v * s,
                    wz == w * s,
                    v != w,
                    s > 0,
            ;
            assert forall|p: int| vz <= p < vz + s implies #[trigger] t0.zone_of(p) == v by {
                lemma_zone_of(p, v as int, s);
            }
            assert forall|p: int| wz <= p < wz + s implies #[trigger] t0.zone_of(p) == w by {
                lemma_zone_of(p, w as int, s);
            }
            // The blocks copied are live, so their back-pointers are distinct logical blocks.
            assert forall|i: int| 0 <= i < n implies #[trigger] t0.p2l()[from + i] < t0.n_logical() && t0.l2p()[
                t0.p2l()[from + i] as int] == from + i by {
                assert(t0.zone_of(from + i) == v);
                assert(t0.block_ok(from + i));
            }
            assert forall|i: int, j: int|
                0 <= i < n && 0 <= j < n && i != j implies #[trigger] t0.p2l()[from + i] != #[trigger] t0.p2l()[
                from + j] by {
                assert(t0.l2p()[t0.p2l()[from + i] as int] == from + i);
                assert(t0.l2p()[t0.p2l()[from + j] as int] == from + j);
            }
        }
        self.map.mark_invalid_len(wp, d - wp);
        let ghost t1 = *self;
        proof {
            assert forall|i: int| 0 <= i < n implies #[trigger] t1.p2l()[from + i] < t1.l2p().len() by {
                assert(t0.p2l()[from + i] < t0.n_logical());
            }
            assert forall|i: int, j: int|
                0 <= i < n && 0 <= j < n && i != j implies #[trigger] t1.p2l()[from + i] != #[trigger] t1.p2l()[
                from + j] by {
                assert(t0.p2l()[from + i] != t0.p2l()[from + j]);
            }
        }
        self.map.remap(from, d, n);
        self.map.mark_invalid_len(from, n);
        self.zones.zone_incr_wp(w, d + n - wp);
        proof {
            let t2 = *self;
            assert(t2.zone_size() == s);
            assert forall|l: int| 0 <= l < t0.n_logical() implies #[trigger] t2.l2p()[l] == if from <= t0.l2p()[l]
                < from + n {
                (d + (t0.l2p()[l] - from)) as u64
            } else {
                t0.l2p()[l]
            } by {
                assert(t0.mapping_ok(l));
                if from <= t0.l2p()[l] < from + n {
                    let i = t0.l2p()[l] - from;
                    assert(t0.p2l()[from + i] == l);
                } else {
                    assert forall|i: int| 0 <= i < n implies #[trigger] t1.p2l()[from + i] != l by {
                        if t0.p2l()[from + i] == l {
                            assert(t0.l2p()[t0.p2l()[from + i] as int] == from + i);
                        }
                    }
                }
            }
            assert forall|p: int| 0 <= p < t0.n_phys() && t0.zone_of(p) != w implies #[trigger] t2.zone_rec(t2.zone_of(p))
                == t0.zone_rec(t0.zone_of(p)) by {
                t0.lemma_zone_range(p);
            }
            assert(t2.zone_rec(w as int).wp == d + n);
            assert forall|l: int| 0 <= l < t2.n_logical() implies #[trigger] t2.mapping_ok(l) by {
                assert(t0.mapping_ok(l));
                if is_mapped(t0.l2p()[l]) {
                    let p = t0.l2p()[l] as int;
                    t0.lemma_zone_range(p);
                    if from <= p < from + n {
                        let q = d + (p - from);
                        assert(wz <= q < wz + s);
                        assert(t0.zone_of(q) == w);
                        assert(t2.zone_of(q) == w);
                        assert(t0.p2l()[from + (p - from)] == l);
                        assert(t2.p2l()[q] == l);
                        if q >= wp {
                            t0.lemma_unwritten(w as int, q);
                        }
                        assert(!t2.invalid()[q]);
                    } else {
                        if t0.zone_of(p) == w {
                            assert(p < wp);
                        } else {
                            assert(t2.zone_rec(t2.zone_of(p)) == t0.zone_rec(t0.zone_of(p)));
                            if wp <= p < d + n {
                                assert(t0.zone_of(p) == w);
                            }
                        }
                        assert(t2.p2l()[p] == l);
                        assert(!t2.invalid()[p]);
                    }
                }
            }
            assert forall|p: int| 0 <= p < t2.n_phys() implies #[trigger] t2.block_ok(p) && t2.invalid_ok(p) by {
                assert(t0.block_ok(p));
                assert(t0.invalid_ok(p));
                t0.lemma_zone_range(p);
                assert(t2.zone_of(p) == t0.zone_of(p));
                if t0.live(p) {
                    assert(t0.mapping_ok(t0.p2l()[p] as int));
                }
                if t0.zone_of(p) == w {
                    if d <= p < d + n {
                        let i = p - d;
                        assert(t2.p2l()[p] == t0.p2l()[from + i]);
                        assert(t0.l2p()[t0.p2l()[from + i] as int] == from + i);
                        assert(t2.l2p()[t0.p2l()[from + i] as int] == p);
                        assert(t2.live(p));
                    } else if wp <= p < d {
                        assert(t2.invalid()[p]);
                    } else if p < wp {
                        if t0.live(p) {
                            let l = t0.p2l()[p] as int;
                            assert(t2.l2p()[l] == p);
                            assert(t2.p2l()[p] == l);
                        }
                    } else {
                        t0.lemma_unwritten(w as int, p);
                        assert(!t2.invalid()[p]);
                    }
                } else {
                    assert(t2.zone_rec(t2.zone_of(p)) == t0.zone_rec(t0.zone_of(p)));
                    if wp <= p < d + n {
                        assert(t0.zone_of(p) == w);
                    }
                    if from <= p < from + n {
                        assert(t2.invalid()[p]);
                        assert(t0.zone_of(p) == v);
                    } else if t0.live(p) {
                        let l = t0.p2l()[p] as int;
                        assert(t2.l2p()[l] == p);
                        assert(t2.p2l()[p] == l);
                    }
                }
            }
            assert forall|p: int| 0 <= p < t2.n_phys() implies #[trigger] t2.invalid_ok(p) by {
                assert(t2.block_ok(p) && t2.invalid_ok(p));
            }
            assert forall|p: int| 0 <= p < t0.invalid().len() && #[trigger] t0.invalid()[p] implies t2.invalid()[p] by {
                if d <= p < d + n {
                    t0.lemma_unwritten(w as int, p);
                }
            }
            t2.lemma_counters_kept(&t0);
        }
    }

    /// Resets open zone `v`, whose every written block is invalid: its bits
    /// are cleared, its write pointer goes back to its first block and its
    /// counters to zero.
    #[verifier::spinoff_prover]
    fn commit_reset(&mut self, v: u64)
        requires
            old(self).wf(),
            old(self).pools().open().contains(v),
            old(self).zone_rec(v as int).spec_is_full(),
            forall|i: int|
                0 <= i < old(self).zone_rec(v as int).zone_cap ==> #[trigger] old(self).invalid()[old(
                    self,
                ).zone_rec(v as int).zslba + i],
        ensures
            final(self).wf(),
            final(self).l2p() == old(self).l2p(),
            final(self).n_logical() == old(self).n_logical(),
            final(self).spec_max_lba() == old(self).spec_max_lba(),
            final(self).spec_block_size() == old(self).spec_block_size(),
            final(self).pools().table() == old(self).pools().table().update(
                v as int,
                MapperZone { wp: old(self).zone_rec(v as int).zslba, ..old(self).zone_rec(v as int) },
            ),
            final(self).invalid_count(v) == 0,
            final(self).metadata()[v as int].zone_age == 0,
            forall|q: int|
                0 <= q < old(self).invalid().len() ==> #[trigger] final(self).invalid()[q] == (old(self).invalid()[q]
                    && !(old(self).zone_rec(v as int).zslba <= q < old(self).zone_rec(v as int).zslba + old(
                    self,
                ).zone_rec(v as int).zone_cap)),
            final(self).pools().free() == old(self).pools().free(),
            final(self).pools().full() == old(self).pools().full(),
            final(self).pools().op() == old(self).pools().op(),
            final(self).pools().open() == old(self).pools().open(),
    {
        let ghost t0 = *old(self);
        let zone_size = self.zones.zone_size_of();
        proof {
            self.lemma_lens();
            assert(t0.pools().zone_ok(v as int));
            t0.pools().lemma_open_member(v);
        }
        let zslba = self.zones.zone(v).zslba;
        let cap = self.zones.zone(v).zone_cap;
        let ghost s = zone_size as int;
        proof {
            assert(zslba + s <= t0.n_phys()) by (nonlinear_arith)
                requires
                    zslba == v * s,
                    v < t0.n_zones(),
                    s > 0,
                    t0.n_phys() == t0.n_zones() * s,
            ;
            assert forall|p: int| zslba <= p < zslba + s implies #[trigger] t0.zone_of(p) == v by {
                lemma_zone_of(p, v as int, s);
            }
        }
        self.map.clear_invalid_len(zslba, cap);
        self.zones.zone_reset(v);
        let mut m = MapperZoneMetadata { invalid_blocks: 0, zone_age: 0 };
        m.reset();
        self.zones_metadata.set(v as usize, m);
        proof {
            let t2 = *self;
            assert(t2.zone_size() == s);
            assert forall|p: int| 0 <= p < t0.n_phys() && t0.zone_of(p) != v implies #[trigger] t2.zone_rec(t2.zone_of(p))
                == t0.zone_rec(t0.zone_of(p)) by {
                t0.lemma_zone_range(p);
            }
            assert forall|l: int| 0 <= l < t2.n_logical() implies #[trigger] t2.mapping_ok(l) by {
                assert(t0.mapping_ok(l));
                if is_mapped(t0.l2p()[l]) {
                    let p = t0.l2p()[l] as int;
                    t0.lemma_zone_range(p);
                    if t0.zone_of(p) == v {
                        assert(t0.invalid()[zslba + (p - zslba)]);
                        assert(false);
                    }
                    if zslba <= p < zslba + cap {
                        assert(t0.zone_of(p) == v);
                    }
                    assert(t2.zone_rec(t2.zone_of(p)) == t0.zone_rec(t0.zone_of(p)));
                }
            }
            assert forall|p: int| 0 <= p < t2.n_phys() implies #[trigger] t2.block_ok(p) && t2.invalid_ok(p) by {
                assert(t0.block_ok(p));
                assert(t0.invalid_ok(p));
                t0.lemma_zone_range(p);
                assert(t2.zone_of(p) == t0.zone_of(p));
                if t0.zone_of(p) == v {
                    assert(!t2.written(p));
                    if zslba <= p < zslba + cap {
                    } else {
                        assert(!t0.written(p));
                    }
                } else {
                    assert(t2.zone_rec(t2.zone_of(p)) == t0.zone_rec(t0.zone_of(p)));
                    if zslba <= p < zslba + cap {
                        assert(t0.zone_of(p) == v);
                    }
                    if t0.live(p) {
                        let l = t0.p2l()[p] as int;
                        assert(t2.l2p()[l] == p);
                    }
                }
            }
            assert forall|p: int| 0 <= p < t2.n_phys() implies #[trigger] t2.invalid_ok(p) by {
                assert(t2.block_ok(p) && t2.invalid_ok(p));
            }
            assert forall|z: int| 0 <= z < t2.n_zones() implies #[trigger] t2.counter_ok(z) by {
                t0.lemma_zone_span(z);
                if z == v {
                    lemma_set_count_bound(t2.invalid(), z * s, z * s + s);
                } else {
                    assert(t0.counter_ok(z));
                    assert forall|p: int| z * s <= p < z * s + s implies #[trigger] t0.invalid()[p] == t2.invalid()[p] by {
                        lemma_zone_of(p, z, s);
                        if zslba <= p < zslba + cap {
                            assert(t0.zone_of(p) == v);
                        }
                    }
                    crate::map::lemma_set_count_same(t0.invalid(), t2.invalid(), z * s, z * s + s);
                }
            }
        }
    }

    /// Invalid-block count of zone `z`.
    pub open spec fn invalid_count(&self, z: u64) -> u64 {
        self.metadata()[z as int].invalid_blocks
    }

    /// Position in the full pool of the victim of the next reclaim: with the
    /// invalid-blocks method, the full zone with the most invalid blocks,
    /// the last parked one among equals; `None` if no zone is full. The LRU
    /// method is not supported.
    pub fn pick_victim(&self) -> (r: Result<Option<usize>, FtlError>)
        requires
            self.wf(),
        ensures
            match r {
                Ok(Some(i)) => {
                    &&& !self.method_is_lru()
                    &&& i < self.pools().full().len()
                    &&& forall|j: int|
                        0 <= j < self.pools().full().len() ==> self.invalid_count(#[trigger] self.pools().full()[j])
                            <= self.invalid_count(self.pools().full()[i as int])
                    &&& forall|j: int|
                        i < j < self.pools().full().len() ==> self.invalid_count(#[trigger] self.pools().full()[j])
                            < self.invalid_count(self.pools().full()[i as int])
                },
                Ok(None) => !self.method_is_lru() && self.pools().full().len() == 0,
                Err(e) => e == FtlError::Unsupported && self.method_is_lru(),
            },
    {
        match self.victim_selection_method {
            VictimSelectionMethod::LRU => return Err(FtlError::Unsupported),
            VictimSelectionMethod::InvalidBlocks => {},
        }
        let n = self.zones.full_len();
        if n == 0 {
            return Ok(None);
        }
        proof {
            self.lemma_lens();
        }
        let mut best: usize = 0;
        let z0 = self.zones.full_at(0);
        let mut best_count = self.zones_metadata[z0 as usize].invalid_blocks;
        let mut i: usize = 1;
        while i < n
            invariant
                self.wf(),
                n == self.pools().full().len(),
                self.metadata().len() <= usize::MAX,
                1 <= i <= n,
                best < i,
                best_count == self.invalid_count(self.pools().full()[best as int]),
                forall|j: int| 0 <= j < i ==> self.invalid_count(#[trigger] self.pools().full()[j]) <= best_count,
                forall|j: int| best < j < i ==> self.invalid_count(#[trigger] self.pools().full()[j]) < best_count,
            decreases n - i,
        {
            let z = self.zones.full_at(i);
            let c = self.zones_metadata[z as usize].invalid_blocks;
            if c >= best_count {
                best = i;
                best_count = c;
            }
            i = i + 1;
        }
        Ok(Some(best))
    }

    /// Starts a reclaim iteration, if one is due: when no more zones are
    /// free than full, takes the victim out of the full pool and a
    /// destination out of the reserve, or out of the free pool when the
    /// reserve is empty. Returns `None`, changing nothing, when more zones
    /// are free than full, when no zone is full, or when the victim has no
    /// invalid block.
    pub fn reclaim_begin(&mut self) -> (r: Result<Option<ReclaimOp>, FtlError>)
        requires
            old(self).wf(),
        ensures
            final(self).wf(),
            final(self).l2p() == old(self).l2p(),
            final(self).p2l() == old(self).p2l(),
            final(self).invalid() == old(self).invalid(),
            final(self).pools().table() == old(self).pools().table(),
            final(self).spec_max_lba() == old(self).spec_max_lba(),
            final(self).spec_block_size() == old(self).spec_block_size(),
            match r {
                Ok(Some(op)) => {
                    &&& old(self).pools().free().len() <= old(self).pools().full().len()
                    &&& exists|i: int|
                        0 <= i < old(self).pools().full().len() && old(self).pools().full()[i] == op.spec_victim()
                            && final(self).pools().full() == old(self).pools().full().remove(i) && (forall|j: int|
                            i < j < old(self).pools().full().len() ==> old(self).invalid_count(
                                #[trigger] old(self).pools().full()[j],
                            ) < old(self).invalid_count(op.spec_victim()))
                    &&& forall|j: int|
                        0 <= j < old(self).pools().full().len() ==> old(self).invalid_count(
                            #[trigger] old(self).pools().full()[j],
                        ) <= old(self).invalid_count(op.spec_victim())
                    &&& old(self).invalid_count(op.spec_victim()) > 0
                    &&& op.spec_dest_from_op() ==> op.spec_dest() == old(self).pools().op().last() && old(
                        self,
                    ).pools().op().len() > 0 && final(self).pools().op() == old(self).pools().op().drop_last()
                        && final(self).pools().free() == old(self).pools().free()
                    &&& !op.spec_dest_from_op() ==> op.spec_dest() == old(self).pools().free().last() && old(
                        self,
                    ).pools().op().len() == 0 && final(self).pools().free() == old(self).pools().free().drop_last()
                        && final(self).pools().op() == old(self).pools().op()
                    &&& final(self).pools().open() == old(self).pools().open().push(op.spec_dest()).push(
                        op.spec_victim(),
                    )
                    &&& final(self).pools().open().contains(op.spec_victim())
                    &&& final(self).pools().open().contains(op.spec_dest())
                    &&& op.spec_cursor() == old(self).zone_rec(op.spec_victim() as int).zslba
                    &&& op.spec_pending() is None
                },
                Ok(None) => {
                    &&& final(self).pools().same_as(&old(self).pools())
                    &&& !reclaim_due(*old(self))
                },
                Err(e) => {
                    &&& final(self).pools().same_as(&old(self).pools())
                    &&& e == FtlError::Unsupported ==> old(self).method_is_lru()
                    &&& e == FtlError::NoFreeZones ==> old(self).pools().op().len() == 0 && old(
                        self,
                    ).pools().free().len() == 0 && reclaim_due(*old(self))
                    &&& (e == FtlError::Unsupported || e == FtlError::NoFreeZones)
                },
            },
            (reclaim_due(*old(self)) && !old(self).method_is_lru() && (old(self).pools().op().len() > 0 || old(
                self,
            ).pools().free().len() > 0)) ==> r matches Ok(Some(_)),
    {
        let ghost t0 = *old(self);
        if self.zones.free_len() > self.zones.full_len() {
            return Ok(None);
        }
        let vi = match self.pick_victim() {
            Ok(Some(i)) => i,
            Ok(None) => return Ok(None),
            Err(e) => return Err(e),
        };
        proof {
            self.lemma_lens();
        }
        let vz = self.zones.full_at(vi);
        if self.zones_metadata[vz as usize].invalid_blocks == 0 {
            return Ok(None);
        }
        let (dest, dest_from_op) = match self.zones.pop_op() {
            Some(z) => (z, true),
            None => {
                proof {
                    self.lemma_pools_moved(&t0);
                }
                match self.zones.pop_free() {
                    Some(z) => (z, false),
                    None => {
                        proof {
                            self.lemma_pools_moved(&t0);
                        }
                        return Err(FtlError::NoFreeZones);
                    },
                }
            },
        };
        let victim = self.zones.take_full(vi);
        let cursor = self.zones.zone(victim).zslba;
        proof {
            self.lemma_pools_moved(&t0);
            assert(old(self).pools().full()[vi as int] == victim);
            assert(old(self).pools().full().contains(victim));
            let o = self.pools().open();
            assert(o[o.len() - 1] == victim);
            assert(o[o.len() - 2] == dest);
            assert(o.contains(victim));
            assert(o.contains(dest));
            assert(old(self).invalid_count(victim) > 0);
        }
        Ok(Some(ReclaimOp { victim, dest, dest_from_op, cursor, pending: None }))
    }

    /// Parks open zone `z` in `pool`.
    fn park_zone(&mut self, z: u64, pool: ZonePool)
        requires
            old(self).wf(),
            old(self).pools().open().contains(z),
            pool is Full ==> old(self).zone_rec(z as int).spec_is_full(),
            pool is Free ==> !old(self).zone_rec(z as int).spec_is_full(),
        ensures
            final(self).wf(),
            final(self).l2p() == old(self).l2p(),
            final(self).p2l() == old(self).p2l(),
            final(self).invalid() == old(self).invalid(),
            final(self).pools().table() == old(self).pools().table(),
            final(self).spec_max_lba() == old(self).spec_max_lba(),
            final(self).spec_block_size() == old(self).spec_block_size(),
            final(self).metadata() == old(self).metadata(),
            final(self).pools().free() == if pool is Free {
                old(self).pools().free().push(z)
            } else {
                old(self).pools().free()
            },
            final(self).pools().full() == if pool is Full {
                old(self).pools().full().push(z)
            } else {
                old(self).pools().full()
            },
            final(self).pools().op() == if pool is Op {
                old(self).pools().op().push(z)
            } else {
                old(self).pools().op()
            },
            leaves_open(old(self).pools().open(), final(self).pools().open(), z),
    {
        let ghost t0 = *old(self);
        let i = match self.zones.open_index(z) {
            Some(i) => i,
            None => {
                // `z` is open, so it has a position in the open set.
                assert(false);
                return;
            },
        };
        self.zones.park(i, pool);
        proof {
            self.lemma_pools_moved(&t0);
        }
    }

    /// Checks that `op`'s zones are two distinct open zones, the victim full.
    fn reclaim_zones_ok(&self, op: &ReclaimOp) -> (r: bool)
        requires
            self.wf(),
        ensures
            r == reclaim_zones_ok(*self, *op),
    {
        if op.victim == op.dest {
            return false;
        }
        if self.zones.open_index(op.victim).is_none() || self.zones.open_index(op.dest).is_none() {
            return false;
        }
        proof {
            self.pools().lemma_open_member(op.victim);
            assert(self.pools().zone_ok(op.victim as int));
        }
        self.zones.zone(op.victim).is_full()
    }

    /// Plans the next step of a reclaim iteration. From the cursor on, runs
    /// of invalid victim blocks are passed over; the next run of valid ones,
    /// cut to the room left in the destination, is to be copied. When the
    /// destination has no room left, both zones go to the full pool and the
    /// iteration ends. When the victim has no block left to copy, it is
    /// reset, with its counters, and goes to the reserve; the destination
    /// goes to the free pool, or to the full pool if it is full. Fails,
    /// changing nothing, if `op` does not fit the layer's state.
    pub fn reclaim(&mut self, op: &mut ReclaimOp) -> (r: Result<ReclaimAction, FtlError>)
        requires
            old(self).wf(),
        ensures
            final(self).wf(),
            final(self).l2p() == old(self).l2p(),
            final(self).spec_max_lba() == old(self).spec_max_lba(),
            final(self).spec_block_size() == old(self).spec_block_size(),
            final(op).spec_victim() == old(op).spec_victim(),
            final(op).spec_dest() == old(op).spec_dest(),
            match r {
                Ok(ReclaimAction::Copy { from, blocks, to_zslba }) => {
                    let v = old(self).zone_rec(old(op).spec_victim() as int);
                    let w = old(self).zone_rec(old(op).spec_dest() as int);
                    &&& reclaim_zones_ok(*old(self), *old(op))
                    &&& final(self).pools().same_as(&old(self).pools())
                    &&& old(op).spec_cursor() <= from
                    &&& bit_run(old(self).invalid(), old(op).spec_cursor() as int, from - old(op).spec_cursor(), true)
                    &&& 1 <= blocks
                    &&& from + blocks <= v.zslba + v.zone_cap
                    &&& bit_run(old(self).invalid(), from as int, blocks as int, false)
                    &&& blocks <= w.zslba + w.zone_cap - w.wp
                    &&& blocks < w.zslba + w.zone_cap - w.wp ==> (from + blocks == v.zslba + v.zone_cap || old(
                        self,
                    ).invalid()[from + blocks])
                    &&& to_zslba == w.zslba
                    &&& final(op).spec_cursor() == from
                    &&& final(op).spec_pending() == Some((from, blocks))
                },
                Ok(ReclaimAction::Reset { zslba }) => {
                    let v = old(op).spec_victim();
                    let w = old(op).spec_dest();
                    &&& reclaim_zones_ok(*old(self), *old(op))
                    &&& zslba == old(self).zone_rec(v as int).zslba
                    &&& forall|i: int|
                        0 <= i < old(self).zone_rec(v as int).zone_cap ==> #[trigger] old(self).invalid()[zslba
                            + i]
                    &&& final(self).zone_rec(v as int).wp == zslba
                    &&& final(self).pools().op() == old(self).pools().op().push(v)
                    &&& if old(self).zone_rec(w as int).spec_is_full() {
                        final(self).pools().full() == old(self).pools().full().push(w) && final(self).pools().free()
                            == old(self).pools().free()
                    } else {
                        final(self).pools().free() == old(self).pools().free().push(w) && final(self).pools().full()
                            == old(self).pools().full()
                    }
                    &&& !final(self).pools().open().contains(v)
                    &&& !final(self).pools().open().contains(w)
                    &&& final(self).invalid_count(v) == 0
                    &&& final(self).metadata()[v as int].zone_age == 0
                    &&& forall|q: int|
                        0 <= q < old(self).invalid().len() ==> #[trigger] final(self).invalid()[q] == (old(
                            self,
                        ).invalid()[q] && !(zslba <= q < zslba + old(self).zone_rec(v as int).zone_cap))
                    &&& final(op).spec_pending() is None
                },
                Ok(ReclaimAction::Done) => {
                    let w = old(self).zone_rec(old(op).spec_dest() as int);
                    &&& reclaim_zones_ok(*old(self), *old(op))
                    &&& w.spec_is_full()
                    &&& final(self).pools().full() == old(self).pools().full().push(old(op).spec_victim()).push(
                        old(op).spec_dest(),
                    )
                    &&& final(self).pools().free() == old(self).pools().free()
                    &&& final(self).pools().op() == old(self).pools().op()
                    &&& !final(self).pools().open().contains(old(op).spec_victim())
                    &&& !final(self).pools().open().contains(old(op).spec_dest())
                    &&& final(self).invalid() == old(self).invalid()
                    &&& final(op).spec_pending() is None
                },
                Err(e) => {
                    let v = old(self).zone_rec(old(op).spec_victim() as int);
                    &&& e == FtlError::Fatal
                    &&& final(self).pools().same_as(&old(self).pools())
                    &&& final(self).invalid() == old(self).invalid()
                    &&& *final(op) == *old(op)
                    &&& reclaim_op_ok(*old(self), *old(op)) ==> bit_run(
                        old(self).invalid(),
                        old(op).spec_cursor() as int,
                        v.zslba + v.zone_cap - old(op).spec_cursor(),
                        true,
                    ) && !bit_run(old(self).invalid(), v.zslba as int, v.zone_cap as int, true)
                },
            },
            !reclaim_op_ok(*old(self), *old(op)) ==> r == Err::<ReclaimAction, FtlError>(FtlError::Fatal),
    {
        let ghost t0 = *old(self);
        if op.pending.is_some() || !self.reclaim_zones_ok(op) {
            return Err(FtlError::Fatal);
        }
        proof {
            self.pools().lemma_open_member(op.victim);
            self.pools().lemma_open_member(op.dest);
            assert(self.pools().zone_ok(op.victim as int));
            assert(self.pools().zone_ok(op.dest as int));
            self.lemma_lens();
            let s = self.zone_size();
            let vz = self.zone_rec(op.victim as int).zslba as int;
            assert(vz + s <= self.n_phys()) by (nonlinear_arith)
                requires
                    vz == op.victim * s,
                    op.victim < self.n_zones(),
                    s > 0,
                    self.n_phys() == self.n_zones() * s,
            ;
        }
        let zslba = self.zones.zone(op.victim).zslba;
        let end = zslba + self.zones.zone(op.victim).zone_cap;
        if op.cursor < zslba || op.cursor > end {
            return Err(FtlError::Fatal);
        }
        let c0 = op.cursor;
        let mut cursor = c0;
        let mut valid: u64 = 0;
        while cursor < end && valid == 0
            invariant
                *self == t0,
                t0.wf(),
                zslba <= c0 <= cursor <= end,
                end <= t0.invalid().len(),
                bit_run(t0.invalid(), c0 as int, cursor - c0, true),
                valid > 0 ==> cursor < end && valid <= end - cursor && bit_run(
                    t0.invalid(),
                    cursor as int,
                    valid as int,
                    false,
                ) && (valid < end - cursor ==> t0.invalid()[cursor + valid]),
            decreases end - cursor, if valid == 0 { 1int } else { 0int },
        {
            valid = self.map.lookup_contiguous_valid(cursor, end - cursor);
            if valid == 0 {
                let inv = self.map.lookup_contiguous_invalid(cursor, end - cursor);
                proof {
                    if inv == 0 {
                        assert(!t0.invalid()[cursor + 0]);
                        assert(t0.invalid()[cursor + 0]);
                    }
                    let c = cursor;
                    assert forall|i: int| 0 <= i < c + inv - c0 implies #[trigger] t0.invalid()[c0 + i] by {
                        if i < c - c0 {
                            assert(bit_run(t0.invalid(), c0 as int, c - c0, true));
                        } else {
                            assert(t0.invalid()[c + (i - (c - c0))]);
                        }
                    }
                }
                cursor = cursor + inv;
            }
        }
        if valid > 0 {
            let dz = self.zones.zone(op.dest);
            let room = dz.zslba + dz.zone_cap - dz.wp;
            let dzslba = dz.zslba;
            if room == 0 {
                self.park_zone(op.victim, ZonePool::Full);
                proof {
                    self.lemma_still_open(&t0, op.victim, op.dest);
                }
                self.park_zone(op.dest, ZonePool::Full);
                proof {
                    let f = self.pools().full();
                    assert(f[f.len() - 1] == op.dest);
                    assert(f[f.len() - 2] == op.victim);
                    self.pools().lemma_parked_not_open(op.dest);
                    self.pools().lemma_parked_not_open(op.victim);
                }
                op.cursor = cursor;
                return Ok(ReclaimAction::Done);
            }
            let n = if valid < room {
                valid
            } else {
                room
            };
            op.cursor = cursor;
            op.pending = Some((cursor, n));
            return Ok(ReclaimAction::Copy { from: cursor, blocks: n, to_zslba: dzslba });
        }
        let cap = end - zslba;
        if self.map.lookup_contiguous_invalid(zslba, cap) != cap {
            return Err(FtlError::Fatal);
        }
        self.commit_reset(op.victim);
        let ghost t1 = *self;
        self.park_zone(op.victim, ZonePool::Op);
        let dest_full = self.zones.zone(op.dest).is_full();
        proof {
            self.lemma_still_open(&t1, op.victim, op.dest);
            self.pools().lemma_open_member(op.dest);
            assert(self.pools().zone_ok(op.dest as int));
        }
        if dest_full {
            self.park_zone(op.dest, ZonePool::Full);
            proof {
                let f = self.pools().full();
                assert(f[f.len() - 1] == op.dest);
                self.pools().lemma_parked_not_open(op.dest);
            }
        } else {
            self.park_zone(op.dest, ZonePool::Free);
            proof {
                let f = self.pools().free();
                assert(f[f.len() - 1] == op.dest);
                self.pools().lemma_parked_not_open(op.dest);
            }
        }
        proof {
            t0.pools().lemma_open_not_parked(op.victim);
            let o = self.pools().op();
            assert(o[o.len() - 1] == op.victim);
            assert(o.contains(op.victim));
            self.pools().lemma_parked_not_open(op.victim);
        }
        op.cursor = end;
        Ok(ReclaimAction::Reset { zslba })
    }

    /// After open zone `v` of `t0` is parked, zone `w` of `t0`'s open set is still open.
    proof fn lemma_still_open(&self, t0: &Self, v: u64, w: u64)
        requires
            v != w,
            t0.pools().open().contains(w),
            leaves_open(t0.pools().open(), self.pools().open(), v),
        ensures
            self.pools().open().contains(w),
    {
        let i = choose|i: int|
            0 <= i < t0.pools().open().len() && t0.pools().open()[i] == v && self.pools().open()
                == t0.pools().open().remove(i);
        let o = t0.pools().open();
        let j = choose|j: int| 0 <= j < o.len() && o[j] == w;
        if j < i {
            assert(self.pools().open()[j] == w);
        } else {
            assert(self.pools().open()[j - 1] == w);
        }
    }

    /// Installs the pending copy of `op`, which the device appended at
    /// physical block `d_lba` of the destination: every logical block backed
    /// by a copied block now maps to its copy, the originals become invalid,
    /// and the cursor moves past them. Fails, changing nothing, if `op` has no
    /// pending copy or the completion does not fit the destination.
    pub fn reclaim_copied(&mut self, op: &mut ReclaimOp, d_lba: u64) -> (r: Result<(), FtlError>)
        requires
            old(self).wf(),
        ensures
            final(self).wf(),
            r is Ok <==> copy_ok(*old(self), *old(op), d_lba),
            final(self).spec_max_lba() == old(self).spec_max_lba(),
            final(self).spec_block_size() == old(self).spec_block_size(),
            final(op).spec_victim() == old(op).spec_victim(),
            final(op).spec_dest() == old(op).spec_dest(),
            match r {
                Ok(()) => {
                    let (from, n) = old(op).spec_pending().unwrap();
                    &&& forall|l: int|
                        0 <= l < old(self).n_logical() ==> #[trigger] final(self).l2p()[l] == if from
                            <= old(self).l2p()[l] < from + n {
                            (d_lba + (old(self).l2p()[l] - from)) as u64
                        } else {
                            old(self).l2p()[l]
                        }
                    &&& final(self).zone_rec(old(op).spec_dest() as int).wp == d_lba + n
                    &&& final(op).spec_cursor() == from + n
                    &&& final(op).spec_pending() is None
                },
                Err(e) => e == FtlError::Fatal && final(self).pools().same_as(&old(self).pools())
                    && final(self).l2p() == old(self).l2p() && *final(op) == *old(op),
            },
    {
        let (from, n) = match op.pending {
            Some(p) => p,
            None => return Err(FtlError::Fatal),
        };
        if !self.reclaim_zones_ok(op) {
            return Err(FtlError::Fatal);
        }
        proof {
            self.pools().lemma_open_member(op.victim);
            self.pools().lemma_open_member(op.dest);
            assert(self.pools().zone_ok(op.victim as int));
            assert(self.pools().zone_ok(op.dest as int));
            let s = self.zone_size();
            let vz = self.zone_rec(op.victim as int).zslba as int;
            assert(vz + s <= self.n_phys()) by (nonlinear_arith)
                requires
                    vz == op.victim * s,
                    op.victim < self.n_zones(),
                    s > 0,
                    self.n_phys() == self.n_zones() * s,
            ;
        }
        let v = self.zones.zone(op.victim);
        let w = self.zones.zone(op.dest);
        if n == 0 || from < v.zslba || from > v.zslba + v.zone_cap || n > v.zslba + v.zone_cap - from
            || d_lba < w.wp || d_lba > w.zslba + w.zone_cap || n > w.zslba + w.zone_cap - d_lba {
            return Err(FtlError::Fatal);
        }
        if self.map.lookup_contiguous_valid(from, n) != n {
            return Err(FtlError::Fatal);
        }
        proof {
            assert forall|i: int| 0 <= i < n implies !#[trigger] self.invalid()[from + i] by {
                assert(bit_run(self.invalid(), from as int, n as int, false));
            }
        }
        self.commit_copy(op.victim, op.dest, from, n, d_lba);
        op.cursor = from + n;
        op.pending = None;
        Ok(())
    }

    /// Ends a reclaim iteration after a device failure: the victim goes back
    /// to the full pool and the destination to the reserve. What was copied
    /// stays mapped.
    pub fn reclaim_abort(&mut self, op: &mut ReclaimOp)
        requires
            old(self).wf(),
        ensures
            final(self).wf(),
            final(self).l2p() == old(self).l2p(),
            final(self).invalid() == old(self).invalid(),
            final(self).metadata() == old(self).metadata(),
            final(self).pools().table() == old(self).pools().table(),
            final(self).spec_max_lba() == old(self).spec_max_lba(),
            final(self).spec_block_size() == old(self).spec_block_size(),
            final(op).spec_pending() is None,
            reclaim_zones_ok(*old(self), *old(op)) ==> {
                let v = old(op).spec_victim();
                let w = old(op).spec_dest();
                &&& final(self).pools().full() == old(self).pools().full().push(v)
                &&& final(self).pools().op() == old(self).pools().op().push(w)
                &&& final(self).pools().free() == old(self).pools().free()
                &&& !final(self).pools().open().contains(v)
                &&& !final(self).pools().open().contains(w)
            },
            !reclaim_zones_ok(*old(self), *old(op)) ==> final(self).pools().same_as(&old(self).pools()),
    {
        op.pending = None;
        if !self.reclaim_zones_ok(op) {
            return;
        }
        let ghost t0 = *self;
        self.park_zone(op.victim, ZonePool::Full);
        proof {
            self.lemma_still_open(&t0, op.victim, op.dest);
        }
        self.park_zone(op.dest, ZonePool::Op);
        proof {
            let f = self.pools().full();
            assert(f[f.len() - 1] == op.victim);
            let o = self.pools().op();
            assert(o[o.len() - 1] == op.dest);
            self.pools().lemma_parked_not_open(op.victim);
            self.pools().lemma_parked_not_open(op.dest);
        }
    }

    /// Whether a reclaim iteration has work: no more zones are free than
    /// full, and some full zone has invalid blocks.
    pub fn reclaim_is_due(&self) -> (r: bool)
        requires
            self.wf(),
        ensures
            r == reclaim_due(*self),
    {
        let n = self.zones.full_len();
        if self.zones.free_len() > n {
            return false;
        }
        proof {
            self.lemma_lens();
        }
        let mut i: usize = 0;
        while i < n
            invariant
                self.wf(),
                n == self.pools().full().len(),
                self.pools().free().len() <= n,
                self.metadata().len() <= usize::MAX,
                i <= n,
                forall|j: int| 0 <= j < i ==> self.invalid_count(#[trigger] self.pools().full()[j]) == 0,
            decreases n - i,
        {
            let z = self.zones.full_at(i);
            proof {
                assert(self.pools().full()[i as int] < self.n_zones());
            }
            if self.zones_metadata[z as usize].invalid_blocks > 0 {
                assert(self.invalid_count(self.pools().full()[i as int]) > 0);
                return true;
            }
            i = i + 1;
        }
        false
    }

    /// Number of the zone that block `lba` lies in.
    pub fn get_zone_number(&self, lba: u64) -> (r: u64)
        requires
            self.wf(),
        ensures
            r == lba as int / self.zone_size(),
    {
        lba / self.zones.zone_size_of()
    }

    /// Bytes per block.
    pub fn block_size(&self) -> (r: u64)
        ensures
            r == self.spec_block_size(),
    {
        self.block_size
    }

    /// Last logical block a caller may address, plus one.
    pub fn max_lba(&self) -> (r: u64)
        ensures
            r == self.spec_max_lba(),
    {
        self.max_lba
    }

    /// Number of zones exposed to callers.
    pub fn exposed_zones(&self) -> (r: u64)
        ensures
            r == self.spec_exposed_zones(),
    {
        self.exposed_zones
    }

    /// Namespace the layer serves.
    pub fn ns_id(&self) -> (r: u32)
        ensures
            r == self.spec_ns_id(),
    {
        self.ns_id
    }

    /// The record of zone `z`.
    pub fn zone(&self, z: u64) -> (r: &MapperZone)
        requires
            self.wf(),
            z < self.n_zones(),
        ensures
            *r == self.zone_rec(z as int),
    {
        self.zones.zone(z)
    }

    /// Number of zones of the namespace.
    pub fn n_zones_of(&self) -> (r: u64)
        requires
            self.wf(),
        ensures
            r == self.n_zones(),
    {
        self.zones.n_zones_of()
    }

    /// Number of zones in the free pool.
    pub fn free_zone_count(&self) -> (r: usize)
        ensures
            r == self.pools().free().len(),
    {
        self.zones.free_len()
    }

    /// Number of zones in the full pool.
    pub fn full_zone_count(&self) -> (r: usize)
        ensures
            r == self.pools().full().len(),
    {
        self.zones.full_len()
    }

    /// The physical block behind logical block `lba`, or the unmapped sentinel.
    pub fn lookup(&self, lba: u64) -> (r: u64)
        requires
            self.wf(),
            lba < self.n_logical(),
        ensures
            r == self.l2p()[lba as int],
    {
        self.map.lookup(lba)
    }
}

/// `op` follows from its first block, within the exposed blocks, and
/// counts as many blocks as its bytes occupy.
pub open spec fn write_op_ok(t: ZNSTarget, op: WriteOp) -> bool {
    &&& op.spec_start() <= op.spec_lba()
    &&& op.spec_lba() + op.spec_blocks() <= t.spec_max_lba()
    &&& op.spec_lba() - op.spec_start() + op.spec_blocks() == blocks_for(
        op.spec_len() as int,
        t.spec_block_size() as int,
    )
}

/// `op` follows from its first block, within the exposed blocks, and
/// counts as many blocks as its bytes occupy.
pub open spec fn read_op_ok(t: ZNSTarget, op: ReadOp) -> bool {
    &&& op.spec_start() <= op.spec_lba()
    &&& op.spec_lba() + op.spec_blocks() <= t.spec_max_lba()
    &&& op.spec_lba() - op.spec_start() + op.spec_blocks() == blocks_for(
        op.spec_len() as int,
        t.spec_block_size() as int,
    )
}

/// The device's completion of `op`'s pending append at `d` fits: the append
/// is pending in an open zone, follows the blocks placed so far, and lands at
/// or past the zone's write pointer and within its capacity.
pub open spec fn completion_ok(t: ZNSTarget, op: WriteOp, d: u64) -> bool {
    match op.spec_pending() {
        Some(p) => {
            let zone = t.zone_rec(p.zone as int);
            &&& t.pools().open().contains(p.zone)
            &&& p.lba == op.spec_lba()
            &&& 1 <= p.blocks <= op.spec_blocks()
            &&& op.spec_start() <= op.spec_lba()
            &&& op.spec_lba() + p.blocks <= t.spec_max_lba()
            &&& zone.wp <= d
            &&& d + p.blocks <= zone.zslba + zone.zone_cap
        },
        None => false,
    }
}

/// `op` has no pending copy, its zones fit `t`, and its cursor lies in the victim.
pub open spec fn reclaim_op_ok(t: ZNSTarget, op: ReclaimOp) -> bool {
    let v = t.zone_rec(op.spec_victim() as int);
    &&& op.spec_pending() is None
    &&& reclaim_zones_ok(t, op)
    &&& v.zslba <= op.spec_cursor() <= v.zslba + v.zone_cap
}

/// A reclaim iteration has work: no more zones are free than full, and some
/// full zone has invalid blocks.
pub open spec fn reclaim_due(t: ZNSTarget) -> bool {
    &&& t.pools().free().len() <= t.pools().full().len()
    &&& exists|j: int| 0 <= j < t.pools().full().len() && t.invalid_count(#[trigger] t.pools().full()[j]) > 0
}

/// The zones of `op` are two distinct open zones of `t`, the victim full.
pub open spec fn reclaim_zones_ok(t: ZNSTarget, op: ReclaimOp) -> bool {
    &&& op.spec_victim() != op.spec_dest()
    &&& t.pools().open().contains(op.spec_victim())
    &&& t.pools().open().contains(op.spec_dest())
    &&& t.zone_rec(op.spec_victim() as int).spec_is_full()
}

/// The device's completion of `op`'s pending copy at `d` fits: the copy is
/// pending between the zones of `op`, covers valid victim blocks, and lands at
/// or past the destination's write pointer and within its capacity.
pub open spec fn copy_ok(t: ZNSTarget, op: ReclaimOp, d: u64) -> bool {
    match op.spec_pending() {
        Some((from, n)) => {
            let v = t.zone_rec(op.spec_victim() as int);
            let w = t.zone_rec(op.spec_dest() as int);
            &&& reclaim_zones_ok(t, op)
            &&& n >= 1
            &&& v.zslba <= from
            &&& from + n <= v.zslba + v.zone_cap
            &&& bit_run(t.invalid(), from as int, n as int, false)
            &&& w.wp <= d
            &&& d + n <= w.zslba + w.zone_cap
        },
        None => false,
    }
}

/// What `ZNSTarget::init` needs of its arguments.
pub open spec fn init_ok(ns: NvmeNamespace, caps: Seq<u64>, exposed_zones: u64) -> bool {
    match ns.zns_info {
        Some(info) => {
            &&& ns.block_size > 0
            &&& info.zone_size > 0
            &&& 1 <= exposed_zones <= info.n_zones
            &&& caps.len() == info.n_zones
            &&& info.n_zones <= ns.blocks / info.zone_size
            &&& ns.blocks <= usize::MAX
            &&& forall|k: int| 0 <= k < caps.len() ==> 0 < #[trigger] caps[k] <= info.zone_size
        },
        None => false,
    }
}

} // verus!
