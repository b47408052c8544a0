//! The logical-to-physical map, its reverse, and the invalid-block bitmap.
use vstd::prelude::*;

use crate::error::FtlError;

verus! {

/// Sentinel stored in a map slot that points nowhere.
pub const ZNS_MAP_UNMAPPED: u64 = 0xFFFF_FFFF_FFFF_FFFF;

pub open spec fn is_mapped(v: u64) -> bool {
    v != ZNS_MAP_UNMAPPED
}

/// Number of mapped slots of `s` in `[lo, hi)`.
pub open spec fn mapped_count(s: Seq<u64>, lo: int, hi: int) -> int
    decreases hi - lo,
{
    if hi <= lo {
        0
    } else {
        mapped_count(s, lo, hi - 1) + if is_mapped(s[hi - 1]) {
            1int
        } else {
            0int
        }
    }
}

/// Number of set bits of `b` in `[lo, hi)`.
pub open spec fn set_count(b: Seq<bool>, lo: int, hi: int) -> int
    decreases hi - lo,
{
    if hi <= lo {
        0
    } else {
        set_count(b, lo, hi - 1) + if b[hi - 1] {
            1int
        } else {
            0int
        }
    }
}

/// At most `hi - lo` bits of a range are set.
pub proof fn lemma_set_count_bound(b: Seq<bool>, lo: int, hi: int)
    requires
        lo <= hi,
    ensures
        0 <= set_count(b, lo, hi) <= hi - lo,
    decreases hi - lo,
{
    if hi > lo {
        lemma_set_count_bound(b, lo, hi - 1);
    }
}

/// Setting more bits of a range does not lower its count.
pub proof fn lemma_set_count_mono(a: Seq<bool>, b: Seq<bool>, lo: int, hi: int)
    requires
        forall|p: int| lo <= p < hi && #[trigger] a[p] ==> b[p],
    ensures
        set_count(a, lo, hi) <= set_count(b, lo, hi),
    decreases hi - lo,
{
    if hi > lo {
        lemma_set_count_mono(a, b, lo, hi - 1);
    }
}

/// Ranges that agree bit for bit have the same count.
pub proof fn lemma_set_count_same(a: Seq<bool>, b: Seq<bool>, lo: int, hi: int)
    requires
        forall|p: int| lo <= p < hi ==> #[trigger] a[p] == b[p],
    ensures
        set_count(a, lo, hi) == set_count(b, lo, hi),
{
    lemma_set_count_mono(a, b, lo, hi);
    lemma_set_count_mono(b, a, lo, hi);
}

/// Setting one clear bit of a range adds one to its count.
pub proof fn lemma_set_count_flip(a: Seq<bool>, lo: int, hi: int, p: int)
    requires
        0 <= lo <= p < hi <= a.len(),
        !a[p],
    ensures
        set_count(a.update(p, true), lo, hi) == set_count(a, lo, hi) + 1,
    decreases hi - lo,
{
    let u = a.update(p, true);
    if hi - 1 > p {
        lemma_set_count_flip(a, lo, hi - 1, p);
        assert(u[hi - 1] == a[hi - 1]);
    } else {
        assert forall|q: int| lo <= q < hi - 1 implies #[trigger] a[q] == u[q] by {}
        lemma_set_count_same(a, u, lo, hi - 1);
    }
}

/// The first `k` slots from `lba` are mapped to ascending consecutive physical blocks.
pub open spec fn physical_run(s: Seq<u64>, lba: int, k: int) -> bool {
    forall|i: int| 0 <= i < k ==> is_mapped(#[trigger] s[lba + i]) && s[lba + i] == s[lba] + i
}

/// Scanning up to `len` slots from `lba` (at least one), an unmapped slot
/// comes before the physical run breaks.
pub open spec fn run_hits_unmapped(s: Seq<u64>, lba: int, len: int) -> bool {
    exists|j: int|
        0 <= j < (if len == 0 { 1 } else { len }) && !is_mapped(#[trigger] s[lba + j]) && physical_run(
            s,
            lba,
            j,
        )
}

/// The first `k` slots from `lba` are all mapped, or all unmapped, as the slot at `lba` is.
pub open spec fn same_mapping_run(s: Seq<u64>, lba: int, k: int) -> bool {
    forall|i: int| 0 <= i < k ==> is_mapped(#[trigger] s[lba + i]) == is_mapped(s[lba])
}

/// The first `k` bits from `d` all equal `bit`.
pub open spec fn bit_run(b: Seq<bool>, d: int, k: int, bit: bool) -> bool {
    forall|i: int| 0 <= i < k ==> #[trigger] b[d + i] == bit
}

/// Mapping state of the translation layer.
pub struct ZNSMap {
    l2d: Vec<u64>,
    d2l: Vec<u64>,
    invalid_bitmap: Vec<bool>,
}

impl ZNSMap {
    /// Logical-to-physical map: one slot per logical block.
    pub closed spec fn l2p(&self) -> Seq<u64> {
        self.l2d@
    }

    /// Physical-to-logical map: one slot per physical block.
    pub closed spec fn p2l(&self) -> Seq<u64> {
        self.d2l@
    }

    /// Invalid-block bitmap: one bit per physical block.
    pub closed spec fn invalid(&self) -> Seq<bool> {
        self.invalid_bitmap@
    }

    pub open spec fn wf(&self) -> bool {
        self.p2l().len() == self.invalid().len()
    }

    /// The lengths of the vectors fit in a `usize`.
    pub proof fn lemma_lens(&self)
        ensures
            self.l2p().len() <= usize::MAX,
            self.p2l().len() <= usize::MAX,
            self.invalid().len() <= usize::MAX,
    {
        assert(self.l2d@.len() == self.l2d.len());
        assert(self.d2l@.len() == self.d2l.len());
        assert(self.invalid_bitmap@.len() == self.invalid_bitmap.len());
    }


    /// Builds an empty map of `n_blocks_logical` logical and `n_blocks_device`
    /// physical blocks: every slot unmapped, no block invalid.
    pub fn init(n_blocks_logical: usize, n_blocks_device: usize) -> (r: Self)
        ensures
            r.wf(),
            r.l2p() == Seq::new(n_blocks_logical as nat, |i: int| ZNS_MAP_UNMAPPED),
            r.p2l() == Seq::new(n_blocks_device as nat, |i: int| ZNS_MAP_UNMAPPED),
            r.invalid() == Seq::new(n_blocks_device as nat, |i: int| false),
    {
        let mut l2d: Vec<u64> = Vec::new();
        let mut i: usize = 0;
        while i < n_blocks_logical
            invariant
                i <= n_blocks_logical,
                l2d@ == Seq::new(i as nat, |k: int| ZNS_MAP_UNMAPPED),
            decreases n_blocks_logical - i,
        {
            l2d.push(ZNS_MAP_UNMAPPED);
            i = i + 1;
        }
        let mut d2l: Vec<u64> = Vec::new();
        let mut invalid_bitmap: Vec<bool> = Vec::new();
        let mut j: usize = 0;
        while j < n_blocks_device
            invariant
                j <= n_blocks_device,
                d2l@ == Seq::new(j as nat, |k: int| ZNS_MAP_UNMAPPED),
                invalid_bitmap@ == Seq::new(j as nat, |k: int| false),
            decreases n_blocks_device - j,
        {
            d2l.push(ZNS_MAP_UNMAPPED);
            invalid_bitmap.push(false);
            j = j + 1;
        }
        proof {
            assert(l2d@ =~= Seq::new(n_blocks_logical as nat, |k: int| ZNS_MAP_UNMAPPED));
        }
        ZNSMap { l2d, d2l, invalid_bitmap }
    }

    /// The physical block behind logical block `lba`.
    pub fn lookup(&self, lba: u64) -> (r: u64)
        requires
            lba < self.l2p().len(),
        ensures
            r == self.l2p()[lba as int],
    {
        proof {
            self.lemma_lens();
        }
        self.l2d[lba as usize]
    }

    /// Length of the run of logical blocks from `lba` (looking at no more than
    /// `len` of them, and at least at one) whose physical blocks are mapped and
    /// ascend one by one. Fails if an unmapped block comes before the run ends.
    pub fn lookup_contiguous_physical(&self, lba: u64, len: u64) -> (r: Result<u64, FtlError>)
        requires
            lba < self.l2p().len(),
            lba + len <= self.l2p().len(),
        ensures
            match r {
                Ok(k) => {
                    &&& 1 <= k <= if len == 0 { 1 } else { len }
                    &&& physical_run(self.l2p(), lba as int, k as int)
                    &&& k < len ==> is_mapped(self.l2p()[lba + k]) && self.l2p()[lba + k]
                        != self.l2p()[lba as int] + k
                },
                Err(e) => e == FtlError::NotMapped && run_hits_unmapped(self.l2p(), lba as int, len as int),
            },
    {
        proof {
            self.lemma_lens();
        }
        let start = self.l2d[lba as usize];
        if start == ZNS_MAP_UNMAPPED {
            assert(!is_mapped(self.l2p()[lba + 0]));
            return Err(FtlError::NotMapped);
        }
        let mut i: u64 = 1;
        while i < len
            invariant
                1 <= i,
                i <= len || i == 1,
                lba < self.l2p().len(),
                lba + len <= self.l2p().len(),
                self.l2p().len() <= usize::MAX,
                start == self.l2p()[lba as int],
                is_mapped(start),
                physical_run(self.l2p(), lba as int, i as int),
            decreases len - i,
        {
            let d = self.l2d[(lba + i) as usize];
            if d == ZNS_MAP_UNMAPPED {
                assert(!is_mapped(self.l2p()[lba + i]));
                return Err(FtlError::NotMapped);
            }
            if d < i || d - i != start {
                return Ok(i);
            }
            proof {
                assert forall|k: int| 0 <= k < i + 1 implies is_mapped(
                    #[trigger] self.l2p()[lba + k],
                ) && self.l2p()[lba + k] == self.l2p()[lba as int] + k by {
                    if k < i {
                        assert(physical_run(self.l2p(), lba as int, i as int));
                    }
                }
            }
            i = i + 1;
        }
        Ok(i)
    }

    /// Length of the run of logical blocks from `lba` (no more than `len`)
    /// that are all mapped, or all unmapped, as the block at `lba` is.
    pub fn lookup_contiguous_map(&self, lba: u64, len: u64) -> (r: u64)
        requires
            lba < self.l2p().len(),
            lba + len <= self.l2p().len(),
        ensures
            r <= len,
            same_mapping_run(self.l2p(), lba as int, r as int),
            r < len ==> is_mapped(self.l2p()[lba + r]) != is_mapped(self.l2p()[lba as int]),
    {
        proof {
            self.lemma_lens();
        }
        let mapped = self.l2d[lba as usize] != ZNS_MAP_UNMAPPED;
        let mut i: u64 = 0;
        while i < len
            invariant
                i <= len,
                lba < self.l2p().len(),
                lba + len <= self.l2p().len(),
                self.l2p().len() <= usize::MAX,
                mapped == is_mapped(self.l2p()[lba as int]),
                same_mapping_run(self.l2p(), lba as int, i as int),
            decreases len - i,
        {
            if (self.l2d[(lba + i) as usize] != ZNS_MAP_UNMAPPED) != mapped {
                return i;
            }
            proof {
                assert forall|k: int| 0 <= k < i + 1 implies is_mapped(
                    #[trigger] self.l2p()[lba + k],
                ) == is_mapped(self.l2p()[lba as int]) by {
                    if k < i {
                        assert(same_mapping_run(self.l2p(), lba as int, i as int));
                    }
                }
            }
            i = i + 1;
        }
        i
    }

    /// Number of mapped logical blocks in `[lba, lba + len)`.
    pub fn count_mapped(&self, lba: u64, len: u64) -> (r: u64)
        requires
            lba + len <= self.l2p().len(),
        ensures
            r == mapped_count(self.l2p(), lba as int, lba + len),
    {
        proof {
            self.lemma_lens();
        }
        let mut count: u64 = 0;
        let mut i: u64 = 0;
        while i < len
            invariant
                i <= len,
                lba + len <= self.l2p().len(),
                self.l2p().len() <= usize::MAX,
                count == mapped_count(self.l2p(), lba as int, lba + i),
                count <= i,
            decreases len - i,
        {
            if self.l2d[(lba + i) as usize] != ZNS_MAP_UNMAPPED {
                count = count + 1;
            }
            i = i + 1;
        }
        count
    }

    /// Points logical block `lba` at physical block `d_lba`, and back.
    pub fn update(&mut self, lba: u64, d_lba: u64)
        requires
            lba < old(self).l2p().len(),
            d_lba < old(self).p2l().len(),
        ensures
            final(self).l2p() == old(self).l2p().update(lba as int, d_lba),
            final(self).p2l() == old(self).p2l().update(d_lba as int, lba),
            final(self).invalid() == old(self).invalid(),
    {
        proof {
            self.lemma_lens();
        }
        self.l2d.set(lba as usize, d_lba);
        self.d2l.set(d_lba as usize, lba);
    }

    /// Points logical blocks `lba + i` at physical blocks `d_lba + i`, and
    /// back, for every `i < len`.
    pub fn update_len(&mut self, lba: u64, d_lba: u64, len: u64)
        requires
            lba + len <= old(self).l2p().len(),
            d_lba + len <= old(self).p2l().len(),
        ensures
            final(self).l2p().len() == old(self).l2p().len(),
            final(self).p2l().len() == old(self).p2l().len(),
            forall|l: int|
                0 <= l < old(self).l2p().len() ==> #[trigger] final(self).l2p()[l] == if lba <= l
                    < lba + len {
                    (d_lba + (l - lba)) as u64
                } else {
                    old(self).l2p()[l]
                },
            forall|p: int|
                0 <= p < old(self).p2l().len() ==> #[trigger] final(self).p2l()[p] == if d_lba
                    <= p < d_lba + len {
                    (lba + (p - d_lba)) as u64
                } else {
                    old(self).p2l()[p]
                },
            final(self).invalid() == old(self).invalid(),
    {
        proof {
            self.lemma_lens();
        }
        let mut i: u64 = 0;
        while i < len
            invariant
                i <= len,
                lba + len <= old(self).l2p().len(),
                d_lba + len <= old(self).p2l().len(),
                old(self).l2p().len() <= usize::MAX,
                old(self).p2l().len() <= usize::MAX,
                self.l2p().len() == old(self).l2p().len(),
                self.p2l().len() == old(self).p2l().len(),
                self.invalid() == old(self).invalid(),
                forall|l: int|
                    0 <= l < old(self).l2p().len() ==> #[trigger] self.l2p()[l] == if lba <= l < lba
                        + i {
                        (d_lba + (l - lba)) as u64
                    } else {
                        old(self).l2p()[l]
                    },
                forall|p: int|
                    0 <= p < old(self).p2l().len() ==> #[trigger] self.p2l()[p] == if d_lba <= p
                        < d_lba + i {
                        (lba + (p - d_lba)) as u64
                    } else {
                        old(self).p2l()[p]
                    },
            decreases len - i,
        {
            self.l2d.set((lba + i) as usize, d_lba + i);
            self.d2l.set((d_lba + i) as usize, lba + i);
            i = i + 1;
        }
    }

    /// Moves the blocks backed by physical `[d_old, d_old + len)` to be backed
    /// by physical `[d_new, d_new + len)`, position by position, and clears the
    /// invalid bit of both ranges.
    pub fn remap(&mut self, d_old: u64, d_new: u64, len: u64)
        requires
            d_old + len <= old(self).p2l().len(),
            d_new + len <= old(self).p2l().len(),
            old(self).wf(),
            d_old + len <= d_new || d_new + len <= d_old,
            forall|i: int| 0 <= i < len ==> #[trigger] old(self).p2l()[d_old + i] < old(self).l2p().len(),
            forall|i: int, j: int|
                0 <= i < len && 0 <= j < len && i != j ==> #[trigger] old(self).p2l()[d_old + i]
                    != #[trigger] old(self).p2l()[d_old + j],
        ensures
            final(self).wf(),
            final(self).l2p().len() == old(self).l2p().len(),
            final(self).p2l().len() == old(self).p2l().len(),
            forall|i: int|
                0 <= i < len ==> final(self).l2p()[#[trigger] old(self).p2l()[d_old + i] as int] == d_new
                    + i,
            forall|l: int|
                0 <= l < old(self).l2p().len() && (forall|i: int|
                    0 <= i < len ==> #[trigger] old(self).p2l()[d_old + i] != l) ==> #[trigger] final(self).l2p()[l]
                    == old(self).l2p()[l],
            forall|p: int|
                0 <= p < old(self).p2l().len() ==> #[trigger] final(self).p2l()[p] == if d_new <= p
                    < d_new + len {
                    old(self).p2l()[d_old + (p - d_new)]
                } else {
                    old(self).p2l()[p]
                },
            forall|p: int|
                0 <= p < old(self).p2l().len() ==> #[trigger] final(self).invalid()[p] == if (d_new
                    <= p < d_new + len) || (d_old <= p < d_old + len) {
                    false
                } else {
                    old(self).invalid()[p]
                },
    {
        proof {
            self.lemma_lens();
        }
        let mut i: u64 = 0;
        while i < len
            invariant
                i <= len,
                d_old + len <= old(self).p2l().len(),
                d_new + len <= old(self).p2l().len(),
                d_old + len <= d_new || d_new + len <= d_old,
                old(self).wf(),
                old(self).p2l().len() <= usize::MAX,
                old(self).l2p().len() <= usize::MAX,
                forall|k: int| 0 <= k < len ==> #[trigger] old(self).p2l()[d_old + k] < old(self).l2p().len(),
                forall|a: int, b: int|
                    0 <= a < len && 0 <= b < len && a != b ==> #[trigger] old(self).p2l()[d_old + a]
                        != #[trigger] old(self).p2l()[d_old + b],
                self.l2p().len() == old(self).l2p().len(),
                self.p2l().len() == old(self).p2l().len(),
                self.invalid().len() == old(self).invalid().len(),
                forall|k: int|
                    0 <= k < i ==> self.l2p()[#[trigger] old(self).p2l()[d_old + k] as int] == d_new + k,
                forall|l: int|
                    0 <= l < old(self).l2p().len() && (forall|k: int|
                        0 <= k < i ==> #[trigger] old(self).p2l()[d_old + k] != l) ==> #[trigger] self.l2p()[l]
                        == old(self).l2p()[l],
                forall|p: int|
                    0 <= p < old(self).p2l().len() ==> #[trigger] self.p2l()[p] == if d_new <= p < d_new
                        + i {
                        old(self).p2l()[d_old + (p - d_new)]
                    } else {
                        old(self).p2l()[p]
                    },
                forall|p: int|
                    0 <= p < old(self).p2l().len() ==> #[trigger] self.invalid()[p] == if (d_new <= p
                        < d_new + i) || (d_old <= p < d_old + i) {
                        false
                    } else {
                        old(self).invalid()[p]
                    },
            decreases len - i,
        {
            let l_lba = self.d2l[(d_old + i) as usize];
            assert(l_lba == old(self).p2l()[d_old + i]);
            self.l2d.set(l_lba as usize, d_new + i);
            self.d2l.set((d_new + i) as usize, l_lba);
            self.invalid_bitmap.set((d_old + i) as usize, false);
            self.invalid_bitmap.set((d_new + i) as usize, false);
            proof {
                assert forall|k: int|
                    0 <= k < i + 1 implies self.l2p()[#[trigger] old(self).p2l()[d_old + k] as int] == d_new
                        + k by {
                    if k < i {
                        assert(old(self).p2l()[d_old + k] != old(self).p2l()[d_old + i]);
                    }
                }
            }
            i = i + 1;
        }
    }

    /// Whether physical block `d_lba` is marked invalid.
    pub fn check_invalid(&self, d_lba: u64) -> (r: bool)
        requires
            d_lba < self.invalid().len(),
        ensures
            r == self.invalid()[d_lba as int],
    {
        proof {
            self.lemma_lens();
        }
        self.invalid_bitmap[d_lba as usize]
    }

    /// Marks physical block `d_lba` invalid.
    pub fn mark_invalid(&mut self, d_lba: u64)
        requires
            d_lba < old(self).invalid().len(),
        ensures
            final(self).l2p() == old(self).l2p(),
            final(self).p2l() == old(self).p2l(),
            final(self).invalid() == old(self).invalid().update(d_lba as int, true),
    {
        proof {
            self.lemma_lens();
        }
        self.invalid_bitmap.set(d_lba as usize, true);
    }

    /// Marks physical blocks `[d_lba, d_lba + len)` invalid.
    pub fn mark_invalid_len(&mut self, d_lba: u64, len: u64)
        requires
            d_lba + len <= old(self).invalid().len(),
        ensures
            final(self).l2p() == old(self).l2p(),
            final(self).p2l() == old(self).p2l(),
            final(self).invalid().len() == old(self).invalid().len(),
            forall|p: int|
                0 <= p < old(self).invalid().len() ==> #[trigger] final(self).invalid()[p] == (
                (d_lba <= p < d_lba + len) || old(self).invalid()[p]),
    {
        self.set_bits(d_lba, len, true);
    }

    /// Clears the invalid bits of physical blocks `[d_lba, d_lba + len)`.
    pub fn clear_invalid_len(&mut self, d_lba: u64, len: u64)
        requires
            d_lba + len <= old(self).invalid().len(),
        ensures
            final(self).l2p() == old(self).l2p(),
            final(self).p2l() == old(self).p2l(),
            final(self).invalid().len() == old(self).invalid().len(),
            forall|p: int|
                0 <= p < old(self).invalid().len() ==> #[trigger] final(self).invalid()[p] == (
                !(d_lba <= p < d_lba + len) && old(self).invalid()[p]),
    {
        self.set_bits(d_lba, len, false);
    }

    fn set_bits(&mut self, d_lba: u64, len: u64, bit: bool)
        requires
            d_lba + len <= old(self).invalid().len(),
        ensures
            final(self).l2p() == old(self).l2p(),
            final(self).p2l() == old(self).p2l(),
            final(self).invalid().len() == old(self).invalid().len(),
            forall|p: int|
                0 <= p < old(self).invalid().len() ==> #[trigger] final(self).invalid()[p] == if d_lba
                    <= p < d_lba + len {
                    bit
                } else {
                    old(self).invalid()[p]
                },
    {
        proof {
            self.lemma_lens();
        }
        let mut i: u64 = 0;
        while i < len
            invariant
                i <= len,
                d_lba + len <= old(self).invalid().len(),
                old(self).invalid().len() <= usize::MAX,
                self.l2p() == old(self).l2p(),
                self.p2l() == old(self).p2l(),
                self.invalid().len() == old(self).invalid().len(),
                forall|p: int|
                    0 <= p < old(self).invalid().len() ==> #[trigger] self.invalid()[p] == if d_lba
                        <= p < d_lba + i {
                        bit
                    } else {
                        old(self).invalid()[p]
                    },
            decreases len - i,
        {
            self.invalid_bitmap.set((d_lba + i) as usize, bit);
            i = i + 1;
        }
    }

    /// Length of the run of valid physical blocks from `d_lba`, no more than `len`.
    pub fn lookup_contiguous_valid(&self, d_lba: u64, len: u64) -> (r: u64)
        requires
            d_lba + len <= self.invalid().len(),
        ensures
            r <= len,
            bit_run(self.invalid(), d_lba as int, r as int, false),
            r < len ==> self.invalid()[d_lba + r],
    {
        self.bit_run_len(d_lba, len, false)
    }

    /// Length of the run of invalid physical blocks from `d_lba`, no more than `len`.
    pub fn lookup_contiguous_invalid(&self, d_lba: u64, len: u64) -> (r: u64)
        requires
            d_lba + len <= self.invalid().len(),
        ensures
            r <= len,
            bit_run(self.invalid(), d_lba as int, r as int, true),
            r < len ==> !self.invalid()[d_lba + r],
    {
        self.bit_run_len(d_lba, len, true)
    }

    fn bit_run_len(&self, d_lba: u64, len: u64, bit: bool) -> (r: u64)
        requires
            d_lba + len <= self.invalid().len(),
        ensures
            r <= len,
            bit_run(self.invalid(), d_lba as int, r as int, bit),
            r < len ==> self.invalid()[d_lba + r] != bit,
    {
        proof {
            self.lemma_lens();
        }
        let mut i: u64 = 0;
        while i < len
            invariant
                i <= len,
                d_lba + len <= self.invalid().len(),
                self.invalid().len() <= usize::MAX,
                bit_run(self.invalid(), d_lba as int, i as int, bit),
            decreases len - i,
        {
            if self.check_invalid(d_lba + i) != bit {
                return i;
            }
            proof {
                assert forall|k: int| 0 <= k < i + 1 implies #[trigger] self.invalid()[d_lba + k]
                    == bit by {
                    if k < i {
                        assert(bit_run(self.invalid(), d_lba as int, i as int, bit));
                    }
                }
            }
            i = i + 1;
        }
        i
    }
}

} // verus!
