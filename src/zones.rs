//! Zone records and the pools that partition the zones of the namespace.
use vstd::prelude::*;

use crate::error::FtlError;

verus! {

broadcast use vstd::seq_lib::group_to_multiset_ensures;

/// Bookkeeping of a zone that victim selection reads.
pub struct MapperZoneMetadata {
    /// Number of blocks of the zone invalidated since its last reset.
    pub invalid_blocks: u64,
    /// Logical clock of the zone's last append.
    pub zone_age: u64,
}

impl MapperZoneMetadata {
    /// Adds `incr` invalidated blocks.
    pub fn incr_invalid_blocks(&mut self, incr: u64)
        requires
            old(self).invalid_blocks + incr <= u64::MAX,
        ensures
            final(self).invalid_blocks == old(self).invalid_blocks + incr,
            final(self).zone_age == old(self).zone_age,
    {
        self.invalid_blocks = self.invalid_blocks + incr;
    }

    /// Clears the counters, as after a reset of the zone.
    pub fn reset(&mut self)
        ensures
            final(self).invalid_blocks == 0,
            final(self).zone_age == 0,
    {
        self.invalid_blocks = 0;
        self.zone_age = 0;
    }
}

/// A physical zone: its first block, its writable capacity and its write pointer.
pub struct MapperZone {
    pub zslba: u64,
    pub zone_cap: u64,
    pub wp: u64,
}

impl MapperZone {
    /// The zone's write pointer lies within its writable blocks.
    pub open spec fn wf(&self) -> bool {
        &&& self.zslba <= self.wp <= self.zslba + self.zone_cap
        &&& self.zslba + self.zone_cap <= u64::MAX
    }

    pub open spec fn spec_is_full(&self) -> bool {
        self.wp == self.zslba + self.zone_cap
    }

    /// An empty zone starting at `zslba` with `zone_cap` writable blocks.
    pub fn new(zslba: u64, zone_cap: u64) -> (r: Self)
        ensures
            r.zslba == zslba,
            r.zone_cap == zone_cap,
            r.wp == zslba,
    {
        MapperZone { zslba, zone_cap, wp: zslba }
    }

    /// Advances the write pointer by `incr`; fails, changing nothing, if that
    /// would pass the zone's capacity.
    pub fn incr_wp(&mut self, incr: u64) -> (r: Result<(), FtlError>)
        requires
            old(self).wf(),
        ensures
            final(self).zslba == old(self).zslba,
            final(self).zone_cap == old(self).zone_cap,
            old(self).wp + incr <= old(self).zslba + old(self).zone_cap ==> r is Ok && final(self).wp
                == old(self).wp + incr,
            old(self).wp + incr > old(self).zslba + old(self).zone_cap ==> r == Err::<(), FtlError>(
                FtlError::Fatal,
            ) && final(self).wp == old(self).wp,
    {
        if incr > self.zslba + self.zone_cap - self.wp {
            return Err(FtlError::Fatal);
        }
        self.wp = self.wp + incr;
        Ok(())
    }

    /// Whether every writable block of the zone has been written.
    pub fn is_full(&self) -> (r: bool)
        requires
            self.wf(),
        ensures
            r == self.spec_is_full(),
    {
        self.wp == self.zslba + self.zone_cap
    }

    /// Moves the write pointer back to the zone's first block.
    pub fn reset(&mut self)
        ensures
            final(self).zslba == old(self).zslba,
            final(self).zone_cap == old(self).zone_cap,
            final(self).wp == old(self).zslba,
    {
        self.wp = self.zslba;
    }
}

/// The pools a zone can be parked in between operations.
pub enum ZonePool {
    /// Zones that accept appends.
    Free,
    /// Zones whose every writable block is written: reclaim candidates.
    Full,
    /// Reserve zones, destinations of reclaim.
    Op,
}

/// The zone table, indexed by zone number, and the pools of zone numbers.
/// `open_zones` holds the zones that an operation in progress has taken out of
/// the other pools.
pub struct ZNSZones {
    zones: Vec<MapperZone>,
    free_zones: Vec<u64>,
    full_zones: Vec<u64>,
    op_zones: Vec<u64>,
    open_zones: Vec<u64>,
    zone_size: u64,
}

proof fn lemma_pop_multiset(s: Seq<u64>)
    requires
        s.len() > 0,
    ensures
        s.to_multiset() == s.drop_last().to_multiset().insert(s.last()),
{
    assert(s.drop_last().push(s.last()) =~= s);
}

proof fn lemma_zone_bounds(z: int, n: int, size: int)
    requires
        0 <= z < n,
        size > 0,
    ensures
        0 <= z * size,
        z * size + size <= n * size,
{
    assert(0 <= z * size) by (nonlinear_arith)
        requires
            0 <= z,
            size > 0,
    ;
    assert(z * size + size <= n * size) by (nonlinear_arith)
        requires
            z < n,
            size > 0,
    ;
}

impl ZNSZones {
    /// The lengths of the vectors fit in a `usize`.
    pub proof fn lemma_lens(&self)
        ensures
            self.table().len() <= usize::MAX,
            self.free().len() <= usize::MAX,
            self.full().len() <= usize::MAX,
            self.op().len() <= usize::MAX,
            self.open().len() <= usize::MAX,
    {
        assert(self.zones@.len() == self.zones.len());
        assert(self.free_zones@.len() == self.free_zones.len());
        assert(self.full_zones@.len() == self.full_zones.len());
        assert(self.op_zones@.len() == self.op_zones.len());
        assert(self.open_zones@.len() == self.open_zones.len());
    }


    pub closed spec fn table(&self) -> Seq<MapperZone> {
        self.zones@
    }

    pub closed spec fn free(&self) -> Seq<u64> {
        self.free_zones@
    }

    pub closed spec fn full(&self) -> Seq<u64> {
        self.full_zones@
    }

    pub closed spec fn op(&self) -> Seq<u64> {
        self.op_zones@
    }

    pub closed spec fn open(&self) -> Seq<u64> {
        self.open_zones@
    }

    /// Number of blocks between the starts of two consecutive zones.
    pub closed spec fn zone_size(&self) -> u64 {
        self.zone_size
    }

    /// The same zones, parked the same way.
    pub open spec fn same_as(&self, o: &ZNSZones) -> bool {
        &&& self.table() == o.table()
        &&& self.zone_size() == o.zone_size()
        &&& self.free() == o.free()
        &&& self.full() == o.full()
        &&& self.op() == o.op()
        &&& self.open() == o.open()
    }

    pub open spec fn n_zones(&self) -> nat {
        self.table().len()
    }

    /// How many times zone number `x` occurs over the pools together.
    pub open spec fn pool_count(&self, x: u64) -> nat {
        self.free().to_multiset().count(x) + self.full().to_multiset().count(x) + self.op().to_multiset().count(
            x,
        ) + self.open().to_multiset().count(x)
    }

    /// Zone `z` starts at `z * zone_size`, has a capacity within the zone size,
    /// and its write pointer within its capacity.
    pub open spec fn zone_ok(&self, z: int) -> bool {
        let m = self.table()[z];
        &&& m.zslba == z * self.zone_size()
        &&& 0 < m.zone_cap <= self.zone_size()
        &&& m.wf()
    }

    pub open spec fn wf(&self) -> bool {
        &&& self.zone_size() > 0
        &&& self.n_zones() * self.zone_size() <= u64::MAX
        &&& forall|z: int| 0 <= z < self.n_zones() ==> #[trigger] self.zone_ok(z)
        &&& forall|x: u64| #[trigger] self.pool_count(x) == if x < self.n_zones() {
            1nat
        } else {
            0nat
        }
        &&& forall|i: int|
            0 <= i < self.free().len() ==> #[trigger] self.free()[i] < self.n_zones()
                && !self.table()[self.free()[i] as int].spec_is_full()
        &&& forall|i: int|
            0 <= i < self.full().len() ==> #[trigger] self.full()[i] < self.n_zones()
                && self.table()[self.full()[i] as int].spec_is_full()
        &&& forall|i: int| 0 <= i < self.op().len() ==> #[trigger] self.op()[i] < self.n_zones()
        &&& forall|i: int| 0 <= i < self.open().len() ==> #[trigger] self.open()[i] < self.n_zones()
    }

    /// The table of `caps.len()` empty zones of stride `zone_size`, zone `z`
    /// with capacity `caps[z]`; zones below `exposed_zones` are free, in
    /// ascending order, the others are reserve zones.
    pub fn init(zone_size: u64, caps: &Vec<u64>, exposed_zones: u64) -> (r: Self)
        requires
            zone_size > 0,
            caps.len() * zone_size <= u64::MAX,
            forall|i: int| 0 <= i < caps.len() ==> 0 < #[trigger] caps[i] <= zone_size,
            exposed_zones <= caps.len(),
        ensures
            r.wf(),
            r.n_zones() == caps.len(),
            r.zone_size() == zone_size,
            forall|z: int|
                0 <= z < caps.len() ==> #[trigger] r.table()[z] == (MapperZone {
                    zslba: (z * zone_size) as u64,
                    zone_cap: caps[z],
                    wp: (z * zone_size) as u64,
                }),
            r.free() == Seq::new(exposed_zones as nat, |i: int| i as u64),
            r.op() == Seq::new((caps.len() - exposed_zones) as nat, |i: int| (exposed_zones + i) as u64),
            r.full().len() == 0,
            r.open().len() == 0,
    {
        let n = caps.len();
        let mut zones: Vec<MapperZone> = Vec::new();
        let mut free_zones: Vec<u64> = Vec::new();
        let mut op_zones: Vec<u64> = Vec::new();
        let mut z: usize = 0;
        while z < n
            invariant
                n == caps.len(),
                z <= n,
                zone_size > 0,
                n * zone_size <= u64::MAX,
                forall|i: int| 0 <= i < caps.len() ==> 0 < #[trigger] caps[i] <= zone_size,
                exposed_zones <= n,
                zones@.len() == z,
                forall|k: int|
                    0 <= k < z ==> #[trigger] zones@[k] == (MapperZone {
                        zslba: (k * zone_size) as u64,
                        zone_cap: caps[k],
                        wp: (k * zone_size) as u64,
                    }),
                forall|k: int|
                    0 <= k < z ==> #[trigger] zones@[k].zslba == k * zone_size && zones@[k].zslba
                        + caps[k] <= u64::MAX,
                free_zones@ == Seq::new(if z < exposed_zones { z as nat } else { exposed_zones as nat }, |i: int| i as u64),
                op_zones@ == Seq::new(if z < exposed_zones { 0 } else { (z - exposed_zones) as nat }, |i: int| (exposed_zones + i) as u64),
                forall|x: u64| #[trigger] free_zones@.to_multiset().count(x) + op_zones@.to_multiset().count(x) == if x < z {
                    1nat
                } else {
                    0nat
                },
            decreases n - z,
        {
            proof {
                lemma_zone_bounds(z as int, n as int, zone_size as int);
            }
            let zslba = z as u64 * zone_size;
            zones.push(MapperZone::new(zslba, caps[z]));
            let ghost f0 = free_zones@;
            let ghost o0 = op_zones@;
            if (z as u64) < exposed_zones {
                free_zones.push(z as u64);
                assert(free_zones@ =~= Seq::new((z + 1) as nat, |i: int| i as u64));
            } else {
                op_zones.push(z as u64);
                assert(op_zones@ =~= Seq::new((z + 1 - exposed_zones) as nat, |i: int| (exposed_zones + i) as u64));
            }
            z = z + 1;
        }
        let r = ZNSZones {
            zones,
            free_zones,
            full_zones: Vec::new(),
            op_zones,
            open_zones: Vec::new(),
            zone_size,
        };
        proof {
            assert forall|x: u64| #[trigger] r.pool_count(x) == if x < r.n_zones() {
                1nat
            } else {
                0nat
            } by {
                assert(r.full().to_multiset().count(x) == 0);
                assert(r.open().to_multiset().count(x) == 0);
            }
            assert forall|k: int| 0 <= k < r.n_zones() implies #[trigger] r.zone_ok(k) by {
                lemma_zone_bounds(k, n as int, zone_size as int);
            }
        }
        r
    }

    /// The record of zone `z`.
    pub fn zone(&self, z: u64) -> (r: &MapperZone)
        requires
            z < self.n_zones(),
        ensures
            *r == self.table()[z as int],
    {
        proof {
            self.lemma_lens();
        }
        &self.zones[z as usize]
    }

    pub fn zone_size_of(&self) -> (r: u64)
        ensures
            r == self.zone_size(),
    {
        self.zone_size
    }

    pub fn n_zones_of(&self) -> (r: u64)
        requires
            self.wf(),
        ensures
            r == self.n_zones(),
    {
        self.zones.len() as u64
    }

    pub fn free_len(&self) -> (r: usize)
        ensures
            r == self.free().len(),
    {
        self.free_zones.len()
    }

    pub fn full_len(&self) -> (r: usize)
        ensures
            r == self.full().len(),
    {
        self.full_zones.len()
    }

    pub fn op_len(&self) -> (r: usize)
        ensures
            r == self.op().len(),
    {
        self.op_zones.len()
    }

    /// The zone number at position `i` of the full pool.
    pub fn full_at(&self, i: usize) -> (r: u64)
        requires
            i < self.full().len(),
        ensures
            r == self.full()[i as int],
    {
        self.full_zones[i]
    }

    /// The record of the zone starting at `zslba`, if that zone is full or free.
    pub fn find_zone(&self, zslba: u64) -> (r: Result<&MapperZone, FtlError>)
        requires
            self.wf(),
        ensures
            match r {
                Ok(m) => m.zslba == zslba && exists|z: u64|
                    (self.full().contains(z) || self.free().contains(z)) && *m
                        == #[trigger] self.table()[z as int],
                Err(e) => e == FtlError::ZoneNotFound && forall|z: u64|
                    (self.full().contains(z) || self.free().contains(z)) ==> #[trigger] self.table()[z as int].zslba
                        != zslba,
            },
    {
        proof {
            self.lemma_lens();
        }
        match self.position(zslba) {
            Some(z) => Ok(&self.zones[z as usize]),
            None => Err(FtlError::ZoneNotFound),
        }
    }

    /// Access to the record of the zone starting at `zslba`, if that zone is
    /// full or free. What is written through it replaces that record.
    pub fn find_zone_mut(&mut self, zslba: u64) -> (r: Result<&mut MapperZone, FtlError>)
        requires
            old(self).wf(),
        ensures
            match r {
                Ok(m) => exists|z: u64|
                    (old(self).full().contains(z) || old(self).free().contains(z)) && *m
                        == #[trigger] old(self).table()[z as int] && m.zslba == zslba
                        && final(self).table() == old(self).table().update(z as int, *final(m)),
                Err(e) => e == FtlError::ZoneNotFound && *final(self) == *old(self) && forall|z: u64|
                    (old(self).full().contains(z) || old(self).free().contains(z)) ==> #[trigger] old(
                        self,
                    ).table()[z as int].zslba != zslba,
            },
            final(self).free() == old(self).free(),
            final(self).full() == old(self).full(),
            final(self).op() == old(self).op(),
            final(self).open() == old(self).open(),
            final(self).zone_size() == old(self).zone_size(),
    {
        proof {
            self.lemma_lens();
        }
        match self.position(zslba) {
            Some(z) => Ok(&mut self.zones[z as usize]),
            None => Err(FtlError::ZoneNotFound),
        }
    }

    /// Number of the zone starting at `zslba` among the full, then the free zones.
    fn position(&self, zslba: u64) -> (r: Option<u64>)
        requires
            self.wf(),
        ensures
            match r {
                Some(z) => (self.full().contains(z) || self.free().contains(z)) && z < self.n_zones()
                    && self.table()[z as int].zslba == zslba,
                None => forall|z: u64|
                    (self.full().contains(z) || self.free().contains(z)) ==> #[trigger] self.table()[z as int].zslba
                        != zslba,
            },
    {
        proof {
            self.lemma_lens();
        }
        let mut i: usize = 0;
        while i < self.full_zones.len()
            invariant
                self.wf(),
                self.table().len() <= usize::MAX,
                i <= self.full().len(),
                forall|k: int| 0 <= k < i ==> self.table()[#[trigger] self.full()[k] as int].zslba != zslba,
            decreases self.full().len() - i,
        {
            let z = self.full_zones[i];
            if self.zones[z as usize].zslba == zslba {
                assert(self.full()[i as int] == z);
                return Some(z);
            }
            i = i + 1;
        }
        let mut j: usize = 0;
        while j < self.free_zones.len()
            invariant
                self.wf(),
                self.table().len() <= usize::MAX,
                j <= self.free().len(),
                forall|k: int| 0 <= k < self.full().len() ==> self.table()[#[trigger] self.full()[k] as int].zslba != zslba,
                forall|k: int| 0 <= k < j ==> self.table()[#[trigger] self.free()[k] as int].zslba != zslba,
            decreases self.free().len() - j,
        {
            let z = self.free_zones[j];
            if self.zones[z as usize].zslba == zslba {
                assert(self.free()[j as int] == z);
                return Some(z);
            }
            j = j + 1;
        }
        None
    }

    /// Takes the last free zone into the open set.
    pub fn pop_free(&mut self) -> (r: Option<u64>)
        requires
            old(self).wf(),
        ensures
            final(self).wf(),
            final(self).table() == old(self).table(),
            final(self).zone_size() == old(self).zone_size(),
            final(self).full() == old(self).full(),
            final(self).op() == old(self).op(),
            match r {
                Some(z) => {
                    &&& old(self).free().len() > 0
                    &&& z == old(self).free().last()
                    &&& final(self).free() == old(self).free().drop_last()
                    &&& final(self).open() == old(self).open().push(z)
                },
                None => old(self).free().len() == 0 && final(self).free() == old(self).free()
                    && final(self).open() == old(self).open(),
            },
    {
        let popped = self.free_zones.pop();
        match popped {
            Some(z) => {
                proof {
                    assert(self.free() =~= old(self).free().drop_last());
                    lemma_pop_multiset(old(self).free());
                }
                self.open_zones.push(z);
                proof {
                    assert forall|x: u64| #[trigger] self.pool_count(x) == old(self).pool_count(x) by {}
                    self.lemma_frame(old(self));
                    assert forall|k: int| 0 <= k < self.open().len() implies #[trigger] self.open()[k] < self.n_zones() by {
                        if k < old(self).open().len() {
                            assert(self.open()[k] == old(self).open()[k]);
                        } else {
                            assert(old(self).free()[old(self).free().len() - 1] < self.n_zones());
                        }
                    }
                    assert forall|k: int| 0 <= k < self.free().len() implies #[trigger] self.free()[k] == old(self).free()[k] by {}
                }
                Some(z)
            },
            None => {
                proof {
                    assert(self.free() =~= old(self).free());
                    assert(self.op() =~= old(self).op());
                    self.lemma_same_views(old(self));
                }
                None
            },
        }
    }

    /// Takes the last reserve zone into the open set.
    pub fn pop_op(&mut self) -> (r: Option<u64>)
        requires
            old(self).wf(),
        ensures
            final(self).wf(),
            final(self).table() == old(self).table(),
            final(self).zone_size() == old(self).zone_size(),
            final(self).full() == old(self).full(),
            final(self).free() == old(self).free(),
            match r {
                Some(z) => {
                    &&& old(self).op().len() > 0
                    &&& z == old(self).op().last()
                    &&& final(self).op() == old(self).op().drop_last()
                    &&& final(self).open() == old(self).open().push(z)
                },
                None => old(self).op().len() == 0 && final(self).op() == old(self).op()
                    && final(self).open() == old(self).open(),
            },
    {
        let popped = self.op_zones.pop();
        match popped {
            Some(z) => {
                proof {
                    assert(self.op() =~= old(self).op().drop_last());
                    lemma_pop_multiset(old(self).op());
                }
                self.open_zones.push(z);
                proof {
                    assert forall|x: u64| #[trigger] self.pool_count(x) == old(self).pool_count(x) by {}
                    self.lemma_frame(old(self));
                    assert forall|k: int| 0 <= k < self.open().len() implies #[trigger] self.open()[k] < self.n_zones() by {
                        if k < old(self).open().len() {
                            assert(self.open()[k] == old(self).open()[k]);
                        } else {
                            assert(old(self).op()[old(self).op().len() - 1] < self.n_zones());
                        }
                    }
                    assert forall|k: int| 0 <= k < self.op().len() implies #[trigger] self.op()[k] == old(self).op()[k] by {}
                    assert forall|k: int| 0 <= k < self.free().len() implies #[trigger] self.free()[k] < self.n_zones()
                        && !self.table()[self.free()[k] as int].spec_is_full() by {
                        assert(self.free()[k] == old(self).free()[k]);
                    }
                    assert forall|k: int| 0 <= k < self.full().len() implies #[trigger] self.full()[k] < self.n_zones()
                        && self.table()[self.full()[k] as int].spec_is_full() by {
                        assert(self.full()[k] == old(self).full()[k]);
                    }
                }
                Some(z)
            },
            None => {
                proof {
                    assert(self.free() =~= old(self).free());
                    assert(self.op() =~= old(self).op());
                    self.lemma_same_views(old(self));
                }
                None
            },
        }
    }

    /// Takes the full zone at position `i` of the full pool into the open set;
    /// the other full zones keep their order.
    pub fn take_full(&mut self, i: usize) -> (r: u64)
        requires
            old(self).wf(),
            i < old(self).full().len(),
        ensures
            final(self).wf(),
            final(self).table() == old(self).table(),
            final(self).zone_size() == old(self).zone_size(),
            final(self).free() == old(self).free(),
            final(self).op() == old(self).op(),
            r == old(self).full()[i as int],
            final(self).full() == old(self).full().remove(i as int),
            final(self).open() == old(self).open().push(r),
    {
        let z = self.full_zones.remove(i);
        self.open_zones.push(z);
        proof {
            assert forall|x: u64| #[trigger] self.pool_count(x) == old(self).pool_count(x) by {}
            self.lemma_frame(old(self));
            assert forall|k: int| 0 <= k < self.open().len() implies #[trigger] self.open()[k] < self.n_zones() by {
                if k < old(self).open().len() {
                    assert(self.open()[k] == old(self).open()[k]);
                } else {
                    assert(old(self).full()[i as int] < self.n_zones());
                }
            }
            assert forall|k: int| 0 <= k < self.full().len() implies #[trigger] self.full()[k] < self.n_zones()
                && self.table()[self.full()[k] as int].spec_is_full() by {
                if k < i {
                    assert(self.full()[k] == old(self).full()[k]);
                } else {
                    assert(self.full()[k] == old(self).full()[k + 1]);
                }
            }
        }
        z
    }

    /// Position of zone `z` in the open set.
    pub fn open_index(&self, z: u64) -> (r: Option<usize>)
        ensures
            match r {
                Some(i) => i < self.open().len() && self.open()[i as int] == z,
                None => !self.open().contains(z),
            },
    {
        let mut i: usize = 0;
        while i < self.open_zones.len()
            invariant
                i <= self.open().len(),
                forall|k: int| 0 <= k < i ==> #[trigger] self.open()[k] != z,
            decreases self.open().len() - i,
        {
            if self.open_zones[i] == z {
                return Some(i);
            }
            i = i + 1;
        }
        None
    }

    /// Parks the open zone at position `i` of the open set in `pool`. Only a
    /// full zone goes to the full pool, and only a zone with room left to the
    /// free pool.
    pub fn park(&mut self, i: usize, pool: ZonePool)
        requires
            old(self).wf(),
            i < old(self).open().len(),
            pool is Full ==> old(self).table()[old(self).open()[i as int] as int].spec_is_full(),
            pool is Free ==> !old(self).table()[old(self).open()[i as int] as int].spec_is_full(),
        ensures
            final(self).wf(),
            final(self).table() == old(self).table(),
            final(self).zone_size() == old(self).zone_size(),
            final(self).open() == old(self).open().remove(i as int),
            final(self).free() == if pool is Free {
                old(self).free().push(old(self).open()[i as int])
            } else {
                old(self).free()
            },
            final(self).full() == if pool is Full {
                old(self).full().push(old(self).open()[i as int])
            } else {
                old(self).full()
            },
            final(self).op() == if pool is Op {
                old(self).op().push(old(self).open()[i as int])
            } else {
                old(self).op()
            },
    {
        let z = self.open_zones.remove(i);
        proof {
            assert(old(self).open()[i as int] < self.n_zones());
        }
        match pool {
            ZonePool::Free => self.free_zones.push(z),
            ZonePool::Full => self.full_zones.push(z),
            ZonePool::Op => self.op_zones.push(z),
        }
        proof {
            assert forall|k: int| 0 <= k < self.free().len() implies #[trigger] self.free()[k] < self.n_zones()
                && !self.table()[self.free()[k] as int].spec_is_full() by {
                if k < old(self).free().len() {
                    assert(self.free()[k] == old(self).free()[k]);
                }
            }
            assert forall|k: int| 0 <= k < self.full().len() implies #[trigger] self.full()[k] < self.n_zones()
                && self.table()[self.full()[k] as int].spec_is_full() by {
                if k < old(self).full().len() {
                    assert(self.full()[k] == old(self).full()[k]);
                }
            }
            assert forall|k: int| 0 <= k < self.op().len() implies #[trigger] self.op()[k] < self.n_zones() by {
                if k < old(self).op().len() {
                    assert(self.op()[k] == old(self).op()[k]);
                }
            }
            assert forall|x: u64| #[trigger] self.pool_count(x) == old(self).pool_count(x) by {}
            self.lemma_frame(old(self));
            assert forall|k: int| 0 <= k < self.open().len() implies #[trigger] self.open()[k] < self.n_zones() by {
                if k < i {
                    assert(self.open()[k] == old(self).open()[k]);
                } else {
                    assert(self.open()[k] == old(self).open()[k + 1]);
                }
            }
        }
    }

    /// Advances the write pointer of open zone `z` by `incr`.
    pub fn zone_incr_wp(&mut self, z: u64, incr: u64)
        requires
            old(self).wf(),
            old(self).open().contains(z),
            z < old(self).n_zones(),
            old(self).table()[z as int].wp + incr <= old(self).table()[z as int].zslba + old(
                self,
            ).table()[z as int].zone_cap,
        ensures
            final(self).wf(),
            final(self).table() == old(self).table().update(
                z as int,
                MapperZone { wp: (old(self).table()[z as int].wp + incr) as u64, ..old(self).table()[z as int] },
            ),
            final(self).zone_size() == old(self).zone_size(),
            final(self).free() == old(self).free(),
            final(self).full() == old(self).full(),
            final(self).op() == old(self).op(),
            final(self).open() == old(self).open(),
    {
        proof {
            self.lemma_lens();
            old(self).lemma_open_not_parked(z);
        }
        let zslba = self.zones[z as usize].zslba;
        let cap = self.zones[z as usize].zone_cap;
        let wp = self.zones[z as usize].wp;
        proof {
            assert(old(self).zone_ok(z as int));
        }
        self.zones.set(z as usize, MapperZone { zslba, zone_cap: cap, wp: wp + incr });
        proof {
            assert forall|zz: int| 0 <= zz < self.n_zones() implies #[trigger] self.zone_ok(zz) by {
                assert(old(self).zone_ok(zz));
            }
            assert forall|k: int| 0 <= k < self.free().len() implies #[trigger] self.free()[k] < self.n_zones()
                && !self.table()[self.free()[k] as int].spec_is_full() by {
                assert(old(self).free().contains(old(self).free()[k]));
            }
            assert forall|k: int| 0 <= k < self.full().len() implies #[trigger] self.full()[k] < self.n_zones()
                && self.table()[self.full()[k] as int].spec_is_full() by {
                assert(old(self).full().contains(old(self).full()[k]));
            }
            assert forall|x: u64| #[trigger] self.pool_count(x) == if x < self.n_zones() {
                1nat
            } else {
                0nat
            } by {
                assert(old(self).pool_count(x) == self.pool_count(x));
            }
        }
    }

    /// Moves the write pointer of open zone `z` back to the zone's first block.
    pub fn zone_reset(&mut self, z: u64)
        requires
            old(self).wf(),
            old(self).open().contains(z),
            z < old(self).n_zones(),
        ensures
            final(self).wf(),
            final(self).table() == old(self).table().update(
                z as int,
                MapperZone { wp: old(self).table()[z as int].zslba, ..old(self).table()[z as int] },
            ),
            final(self).zone_size() == old(self).zone_size(),
            final(self).free() == old(self).free(),
            final(self).full() == old(self).full(),
            final(self).op() == old(self).op(),
            final(self).open() == old(self).open(),
    {
        proof {
            self.lemma_lens();
            old(self).lemma_open_not_parked(z);
        }
        let zslba = self.zones[z as usize].zslba;
        let cap = self.zones[z as usize].zone_cap;
        self.zones.set(z as usize, MapperZone { zslba, zone_cap: cap, wp: zslba });
        proof {
            assert forall|zz: int| 0 <= zz < self.n_zones() implies #[trigger] self.zone_ok(zz) by {
                assert(old(self).zone_ok(zz));
            }
            assert forall|k: int| 0 <= k < self.free().len() implies #[trigger] self.free()[k] < self.n_zones()
                && !self.table()[self.free()[k] as int].spec_is_full() by {
                assert(old(self).free().contains(old(self).free()[k]));
            }
            assert forall|k: int| 0 <= k < self.full().len() implies #[trigger] self.full()[k] < self.n_zones()
                && self.table()[self.full()[k] as int].spec_is_full() by {
                assert(old(self).full().contains(old(self).full()[k]));
            }
            assert forall|x: u64| #[trigger] self.pool_count(x) == if x < self.n_zones() {
                1nat
            } else {
                0nat
            } by {
                assert(old(self).pool_count(x) == self.pool_count(x));
            }
        }
    }

    proof fn lemma_frame(&self, prev: &Self)
        requires
            prev.wf(),
            self.table() == prev.table(),
            self.zone_size() == prev.zone_size(),
            forall|x: u64| #[trigger] self.pool_count(x) == prev.pool_count(x),
        ensures
            forall|z: int| 0 <= z < self.n_zones() ==> #[trigger] self.zone_ok(z),
            forall|x: u64| #[trigger] self.pool_count(x) == if x < self.n_zones() {
                1nat
            } else {
                0nat
            },
    {
        assert forall|z: int| 0 <= z < self.n_zones() implies #[trigger] self.zone_ok(z) by {
            assert(prev.zone_ok(z));
        }
        assert forall|x: u64| #[trigger] self.pool_count(x) == if x < self.n_zones() {
            1nat
        } else {
            0nat
        } by {
            assert(prev.pool_count(x) == self.pool_count(x));
        }
    }

    proof fn lemma_same_views(&self, prev: &Self)
        requires
            prev.wf(),
            self.table() == prev.table(),
            self.zone_size() == prev.zone_size(),
            self.free() == prev.free(),
            self.full() == prev.full(),
            self.op() == prev.op(),
            self.open() == prev.open(),
        ensures
            self.wf(),
    {
        assert forall|x: u64| #[trigger] self.pool_count(x) == prev.pool_count(x) by {}
        self.lemma_frame(prev);
    }

    /// A zone of the open set is a zone of the table.
    pub proof fn lemma_open_member(&self, z: u64)
        requires
            self.wf(),
            self.open().contains(z),
        ensures
            z < self.n_zones(),
    {
    }

    /// A zone parked in the free, full or reserve pool is not open.
    pub proof fn lemma_parked_not_open(&self, z: u64)
        requires
            self.wf(),
            self.free().contains(z) || self.full().contains(z) || self.op().contains(z),
        ensures
            !self.open().contains(z),
    {
        assert(self.pool_count(z) == 1);
    }

    /// An open zone is in no other pool.
    pub proof fn lemma_open_not_parked(&self, z: u64)
        requires
            self.wf(),
            self.open().contains(z),
        ensures
            !self.free().contains(z),
            !self.full().contains(z),
            !self.op().contains(z),
    {
        assert(self.pool_count(z) == 1);
    }
}

} // verus!
