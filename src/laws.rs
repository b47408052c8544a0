//! Laws of the translation layer, over the states its operations leave.
use vstd::prelude::*;

use crate::map::is_mapped;
use crate::nonseq::{ReadOp, WriteOp, ZNSTarget, read_current, write_visible};

verus! {

/// A mapped logical block's physical block maps back to it.
pub proof fn lemma_back_pointers(t: ZNSTarget)
    requires
        t.wf(),
    ensures
        forall|l: int|
            0 <= l < t.n_logical() && is_mapped(#[trigger] t.l2p()[l]) ==> t.p2l()[t.l2p()[l] as int] == l,
{
    assert forall|l: int| 0 <= l < t.n_logical() && is_mapped(#[trigger] t.l2p()[l]) implies t.p2l()[
        t.l2p()[l] as int] == l by {
        assert(t.mapping_ok(l));
    }
}

/// No logical block maps to an invalid physical block.
pub proof fn lemma_invalid_unreferenced(t: ZNSTarget)
    requires
        t.wf(),
    ensures
        forall|p: int, l: int|
            0 <= p < t.invalid().len() && #[trigger] t.invalid()[p] && 0 <= l < t.n_logical() ==> #[trigger] t.l2p()[l]
                != p,
{
    assert forall|p: int, l: int|
        0 <= p < t.invalid().len() && #[trigger] t.invalid()[p] && 0 <= l < t.n_logical() implies #[trigger] t.l2p()[l]
        != p by {
        t.lemma_lens();
        assert(t.mapping_ok(l));
    }
}

/// Every zone of every pool, open zones included, has its write pointer
/// between its first block and the end of its capacity.
pub proof fn lemma_write_pointers_in_zone(t: ZNSTarget)
    requires
        t.wf(),
    ensures
        forall|z: u64|
            (t.pools().free().contains(z) || t.pools().full().contains(z) || t.pools().op().contains(z)
                || t.pools().open().contains(z)) ==> {
                let m = #[trigger] t.zone_rec(z as int);
                m.zslba <= m.wp <= m.zslba + m.zone_cap
            },
{
    assert forall|z: u64|
        (t.pools().free().contains(z) || t.pools().full().contains(z) || t.pools().op().contains(z)
            || t.pools().open().contains(z)) implies {
        let m = #[trigger] t.zone_rec(z as int);
        m.zslba <= m.wp <= m.zslba + m.zone_cap
    } by {
        assert(z < t.n_zones());
        assert(t.pools().zone_ok(z as int));
    }
}

/// The free, full, reserve and open pools hold each zone number below the
/// zone count exactly once over them all, and no other number.
pub proof fn lemma_pools_partition(t: ZNSTarget)
    requires
        t.wf(),
    ensures
        forall|z: u64|
            #[trigger] t.pools().free().to_multiset().count(z) + t.pools().full().to_multiset().count(z)
                + t.pools().op().to_multiset().count(z) + t.pools().open().to_multiset().count(z) == if z
                < t.n_zones() {
                1nat
            } else {
                0nat
            },
{
    assert forall|z: u64|
        #[trigger] t.pools().free().to_multiset().count(z) + t.pools().full().to_multiset().count(z)
            + t.pools().op().to_multiset().count(z) + t.pools().open().to_multiset().count(z) == if z
            < t.n_zones() {
            1nat
        } else {
            0nat
        } by {
        assert(t.pools().pool_count(z) == if z < t.n_zones() {
            1nat
        } else {
            0nat
        });
    }
}

/// A read started at the first block of a write, on a state in which the
/// write's placements are visible, fetches every block from where the write
/// placed it.
pub proof fn lemma_read_your_writes(t: ZNSTarget, w: WriteOp, r: ReadOp)
    requires
        write_visible(t, w),
        read_current(t, r),
        r.spec_start() == w.spec_start(),
    ensures
        forall|i: int|
            0 <= i < r.fetched().len() && i < w.placed().len() ==> #[trigger] r.fetched()[i] == w.placed()[i],
{
    assert forall|i: int| 0 <= i < r.fetched().len() && i < w.placed().len() implies #[trigger] r.fetched()[i]
        == w.placed()[i] by {
        assert(t.l2p()[w.spec_start() + i] == w.placed()[i]);
        assert(t.l2p()[r.spec_start() + i] == r.fetched()[i]);
    }
}

/// After writes `ws` to the same blocks, each visible in the state `ts` it
/// left, a read on the last state fetches what the last write placed, not
/// what an earlier one did.
pub proof fn lemma_last_write_wins(ts: Seq<ZNSTarget>, ws: Seq<WriteOp>, r: ReadOp)
    requires
        ts.len() == ws.len(),
        ws.len() >= 1,
        forall|j: int| 0 <= j < ws.len() ==> write_visible(#[trigger] ts[j], ws[j]),
        forall|j: int| 0 <= j < ws.len() ==> (#[trigger] ws[j]).spec_start() == r.spec_start(),
        read_current(ts.last(), r),
    ensures
        forall|i: int|
            0 <= i < r.fetched().len() && i < ws.last().placed().len() ==> #[trigger] r.fetched()[i]
                == ws.last().placed()[i],
{
    assert(write_visible(ts[ws.len() - 1], ws[ws.len() - 1]));
    lemma_read_your_writes(ts.last(), ws.last(), r);
}

} // verus!
