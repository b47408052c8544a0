//! Submission and completion rings. The submission ring refuses an entry
//! when advancing its tail would reach its head; the completion ring tells a
//! new entry by its phase tag, which flips on every wrap.
use vstd::prelude::*;

use crate::nvme::{blocks_for, NvmeCommand, NvmeCompletion, OPC_READ, OPC_WRITE, addressed};

verus! {

/// Depth of a queue.
pub const QUEUE_LENGTH: usize = 1024;

/// Successor of slot `i` of a ring of `len` slots.
pub open spec fn next_slot(i: int, len: int) -> int {
    (i + 1) % len
}

pub struct NvmeSubQueue {
    commands: Vec<NvmeCommand>,
    head: usize,
    tail: usize,
}

impl NvmeSubQueue {
    pub closed spec fn entries(&self) -> Seq<NvmeCommand> {
        self.commands@
    }

    pub closed spec fn spec_head(&self) -> usize {
        self.head
    }

    pub closed spec fn spec_tail(&self) -> usize {
        self.tail
    }

    pub open spec fn wf(&self) -> bool {
        &&& self.entries().len() >= 1
        &&& self.spec_head() < self.entries().len()
        &&& self.spec_tail() < self.entries().len()
    }

    /// An empty ring of `len` slots, each holding `blank`.
    pub fn new(len: usize, blank: NvmeCommand) -> (r: Self)
        requires
            len >= 1,
        ensures
            r.wf(),
            r.entries().len() == len,
            r.spec_head() == 0,
            r.spec_tail() == 0,
    {
        let mut commands: Vec<NvmeCommand> = Vec::new();
        let mut i: usize = 0;
        while i < len
            invariant
                i <= len,
                commands@.len() == i,
            decreases len - i,
        {
            commands.push(blank);
            i = i + 1;
        }
        NvmeSubQueue { commands, head: 0, tail: 0 }
    }

    /// Oldest slot the device has not consumed.
    pub fn head(&self) -> (r: usize)
        ensures
            r == self.spec_head(),
    {
        self.head
    }

    /// Slot at which the next entry goes.
    pub fn tail(&self) -> (r: usize)
        ensures
            r == self.spec_tail(),
    {
        self.tail
    }

    /// Whether advancing the tail would reach the head.
    pub fn is_full(&self) -> (r: bool)
        requires
            self.wf(),
        ensures
            r == (next_slot(self.spec_tail() as int, self.entries().len() as int) == self.spec_head()),
    {
        let len = self.commands.len();
        (self.tail + 1) % len == self.head
    }

    /// Writes `entry` at the tail and advances it, returning the new tail;
    /// `None`, changing nothing, if the ring is full.
    pub fn submit_checked(&mut self, entry: NvmeCommand) -> (r: Option<usize>)
        requires
            old(self).wf(),
        ensures
            final(self).wf(),
            final(self).spec_head() == old(self).spec_head(),
            match r {
                Some(t) => {
                    &&& next_slot(old(self).spec_tail() as int, old(self).entries().len() as int) != old(
                        self,
                    ).spec_head()
                    &&& t == next_slot(old(self).spec_tail() as int, old(self).entries().len() as int)
                    &&& final(self).spec_tail() == t
                    &&& final(self).entries() == old(self).entries().update(old(self).spec_tail() as int, entry)
                },
                None => {
                    &&& next_slot(old(self).spec_tail() as int, old(self).entries().len() as int) == old(
                        self,
                    ).spec_head()
                    &&& final(self).spec_tail() == old(self).spec_tail()
                    &&& final(self).entries() == old(self).entries()
                },
            },
    {
        let len = self.commands.len();
        let next = (self.tail + 1) % len;
        if next == self.head {
            return None;
        }
        self.commands.set(self.tail, entry);
        self.tail = next;
        Some(next)
    }

    /// Records the head the device reported; a head outside the ring is ignored.
    pub fn set_head(&mut self, head: usize)
        requires
            old(self).wf(),
        ensures
            final(self).wf(),
            final(self).spec_tail() == old(self).spec_tail(),
            final(self).entries() == old(self).entries(),
            final(self).spec_head() == if head < old(self).entries().len() {
                head
            } else {
                old(self).spec_head()
            },
    {
        if head < self.commands.len() {
            self.head = head;
        }
    }
}

pub struct NvmeCompQueue {
    completions: Vec<NvmeCompletion>,
    head: usize,
    phase: bool,
}

impl NvmeCompQueue {
    pub closed spec fn entries(&self) -> Seq<NvmeCompletion> {
        self.completions@
    }

    pub closed spec fn spec_head(&self) -> usize {
        self.head
    }

    /// Phase tag that marks an entry as new.
    pub closed spec fn spec_phase(&self) -> bool {
        self.phase
    }

    pub open spec fn wf(&self) -> bool {
        &&& self.entries().len() >= 1
        &&& self.spec_head() < self.entries().len()
    }

    /// A ring of `len` slots, each holding `blank`, that waits for entries
    /// tagged with phase one.
    pub fn new(len: usize, blank: NvmeCompletion) -> (r: Self)
        requires
            len >= 1,
        ensures
            r.wf(),
            r.entries().len() == len,
            r.spec_head() == 0,
            r.spec_phase(),
    {
        let mut completions: Vec<NvmeCompletion> = Vec::new();
        let mut i: usize = 0;
        while i < len
            invariant
                i <= len,
                completions@.len() == i,
            decreases len - i,
        {
            completions.push(blank);
            i = i + 1;
        }
        NvmeCompQueue { completions, head: 0, phase: true }
    }

    /// Slot the next completion is read from.
    pub fn head(&self) -> (r: usize)
        ensures
            r == self.spec_head(),
    {
        self.head
    }

    /// The device writes completion `c` into slot `i`.
    pub fn store(&mut self, i: usize, c: NvmeCompletion)
        requires
            old(self).wf(),
            i < old(self).entries().len(),
        ensures
            final(self).wf(),
            final(self).entries() == old(self).entries().update(i as int, c),
            final(self).spec_head() == old(self).spec_head(),
            final(self).spec_phase() == old(self).spec_phase(),
    {
        self.completions.set(i, c);
    }

    /// Takes the entry at the head if its phase tag is current: the head
    /// advances, the phase flips when it wraps, and the new head and the
    /// entry are returned. `None`, changing nothing, otherwise.
    pub fn complete(&mut self) -> (r: Option<(usize, NvmeCompletion)>)
        requires
            old(self).wf(),
        ensures
            final(self).wf(),
            final(self).entries() == old(self).entries(),
            ({
                let e = old(self).entries()[old(self).spec_head() as int];
                let fresh = (e.status % 2 == 1) == old(self).spec_phase();
                let h = next_slot(old(self).spec_head() as int, old(self).entries().len() as int);
                match r {
                    Some((head, c)) => {
                        &&& fresh
                        &&& c == e
                        &&& head == h
                        &&& final(self).spec_head() == h
                        &&& final(self).spec_phase() == if h == 0 {
                            !old(self).spec_phase()
                        } else {
                            old(self).spec_phase()
                        }
                    },
                    None => !fresh && final(self).spec_head() == old(self).spec_head() && final(self).spec_phase()
                        == old(self).spec_phase(),
                }
            }),
    {
        let e = self.completions[self.head];
        if (e.status % 2 == 1) != self.phase {
            return None;
        }
        let len = self.completions.len();
        self.head = (self.head + 1) % len;
        if self.head == 0 {
            self.phase = !self.phase;
        }
        Some((self.head, e))
    }
}

/// A physically contiguous piece of a DMA buffer.
#[derive(Clone, Copy)]
pub struct DmaChunk {
    pub phys_addr: u64,
    pub len: usize,
}

/// First block of chunk `i` of a transfer of `chunks` starting at block `lba`.
pub open spec fn chunk_lba(chunks: Seq<DmaChunk>, block_size: int, lba: int, i: int) -> int
    decreases i,
{
    if i <= 0 {
        lba
    } else {
        chunk_lba(chunks, block_size, lba, i - 1) + blocks_for(chunks[i - 1].len as int, block_size)
    }
}

/// Command identifier of the entry at slot `tail` of queue `id`.
pub open spec fn cid_of(id: u16, tail: int) -> u16 {
    ((id % 32) * 2048 + tail % 2048) as u16
}

/// Slot `(t0 + i) % entries.len()` holds the command for chunk `i` of a
/// transfer of `chunks` from block `lba`.
pub open spec fn queued(
    entries: Seq<NvmeCommand>,
    t0: int,
    id: u16,
    ns_id: u32,
    chunks: Seq<DmaChunk>,
    block_size: int,
    lba: int,
    write: bool,
    i: int,
) -> bool {
    let slot = (t0 + i) % (entries.len() as int);
    let c = entries[slot];
    let n = blocks_for(chunks[i].len as int, block_size);
    &&& addressed(
        c,
        cid_of(id, slot),
        ns_id,
        chunk_lba(chunks, block_size, lba, i) as u64,
        chunks[i].phys_addr,
        if n * block_size <= 4096 {
            0
        } else {
            (chunks[i].phys_addr + 4096) as u64
        },
    )
    &&& c.opcode == if write {
        OPC_WRITE
    } else {
        OPC_READ
    }
    &&& c.cdw12 == n - 1
}

/// Number of entries a ring of `len` slots with head `head` and tail `tail`
/// can still take: one slot always stays empty.
pub open spec fn free_slots(head: int, tail: int, len: int) -> int {
    if head > tail {
        head - tail - 1
    } else {
        head + len - tail - 1
    }
}

/// How many slots past slot `t0` slot `j` lies, going round a ring of `len` slots.
pub open spec fn ring_dist(t0: int, j: int, len: int) -> int {
    if j >= t0 {
        j - t0
    } else {
        j + len - t0
    }
}

proof fn lemma_mod_wrap(x: int, l: int)
    requires
        0 <= x < 2 * l,
        l >= 1,
    ensures
        x % l == if x < l {
            x
        } else {
            x - l
        },
{
    if x < l {
        vstd::arithmetic::div_mod::lemma_small_mod(x as nat, l as nat);
    } else {
        vstd::arithmetic::div_mod::lemma_fundamental_div_mod_converse_mod(x, l, 1, x - l);
    }
}

/// From tail `t0`, after `k` entries the tail is `k` slots on, and the ring
/// refuses the next entry exactly when `k` reaches the free slots.
proof fn lemma_ring_step(t0: int, h: int, l: int, k: int)
    requires
        0 <= t0 < l,
        0 <= h < l,
        0 <= k <= free_slots(h, t0, l),
    ensures
        ring_dist(t0, (t0 + k) % l, l) == k,
        0 <= (t0 + k) % l < l,
        (((t0 + k) % l + 1) % l == h) <==> k == free_slots(h, t0, l),
{
    lemma_mod_wrap(t0 + k, l);
    let x = (t0 + k) % l;
    lemma_mod_wrap(x + 1, l);
}

/// A submission ring paired with its completion ring.
pub struct NvmeQueuePair {
    pub id: u16,
    pub sub_queue: NvmeSubQueue,
    pub comp_queue: NvmeCompQueue,
}

impl NvmeQueuePair {
    /// Queues one read or write command per chunk, the `i`-th for block
    /// `chunk_lba(chunks, block_size, lba, i)`, as many as the submission ring
    /// takes; returns how many were queued.
    pub fn submit_io(&mut self, ns_id: u32, block_size: u64, chunks: &Vec<DmaChunk>, lba: u64, write: bool) -> (r:
        usize)
        requires
            old(self).sub_queue.wf(),
            block_size >= 1,
            forall|i: int| 0 <= i < chunks.len() ==> 1 <= #[trigger] chunks[i].len <= 0x1_0000,
            forall|i: int| 0 <= i < chunks.len() ==> #[trigger] chunks[i].phys_addr + 4096 <= u64::MAX,
            chunk_lba(chunks@, block_size as int, lba as int, chunks.len() as int) <= u64::MAX,
        ensures
            final(self).sub_queue.wf(),
            final(self).id == old(self).id,
            final(self).comp_queue == old(self).comp_queue,
            ({
                let f = free_slots(
                    old(self).sub_queue.spec_head() as int,
                    old(self).sub_queue.spec_tail() as int,
                    old(self).sub_queue.entries().len() as int,
                );
                r == if chunks.len() < f {
                    chunks.len() as int
                } else {
                    f
                }
            }),
            final(self).sub_queue.spec_head() == old(self).sub_queue.spec_head(),
            final(self).sub_queue.entries().len() == old(self).sub_queue.entries().len(),
            forall|j: int|
                0 <= j < old(self).sub_queue.entries().len() && ring_dist(
                    old(self).sub_queue.spec_tail() as int,
                    j,
                    old(self).sub_queue.entries().len() as int,
                ) >= r ==> #[trigger] final(self).sub_queue.entries()[j] == old(self).sub_queue.entries()[j],
            final(self).sub_queue.spec_tail() == (old(self).sub_queue.spec_tail() + r) % (old(
                self,
            ).sub_queue.entries().len() as int),
            forall|i: int|
                0 <= i < r ==> #[trigger] queued(
                    final(self).sub_queue.entries(),
                    old(self).sub_queue.spec_tail() as int,
                    old(self).id,
                    ns_id,
                    chunks@,
                    block_size as int,
                    lba as int,
                    write,
                    i,
                ),
    {
        let len = self.sub_queue.commands.len();
        let ghost q0 = old(self).sub_queue;
        let mut reqs: usize = 0;
        let mut cur: u64 = lba;
        let mut stopped = false;
        proof {
            lemma_chunk_lba_monotone(chunks@, block_size as int, lba as int, chunks.len() as int);
            vstd::arithmetic::div_mod::lemma_small_mod(q0.spec_tail() as nat, len as nat);
        }
        let ghost f = free_slots(q0.spec_head() as int, q0.spec_tail() as int, len as int);
        while reqs < chunks.len() && !stopped
            invariant
                f == free_slots(q0.spec_head() as int, q0.spec_tail() as int, len as int),
                q0.wf(),
                reqs <= f,
                stopped ==> reqs == f,
                forall|j: int|
                    0 <= j < len && ring_dist(q0.spec_tail() as int, j, len as int) >= reqs ==> #[trigger] self.sub_queue.entries()[j]
                        == q0.entries()[j],
                self.sub_queue.wf(),
                self.id == old(self).id,
                self.comp_queue == old(self).comp_queue,
                len == q0.entries().len(),
                self.sub_queue.entries().len() == len,
                self.sub_queue.spec_head() == q0.spec_head(),
                reqs <= chunks.len(),
                block_size >= 1,
                forall|i: int| 0 <= i < chunks.len() ==> 1 <= #[trigger] chunks[i].len <= 0x1_0000,
                forall|i: int| 0 <= i < chunks.len() ==> #[trigger] chunks[i].phys_addr + 4096 <= u64::MAX,
                forall|i: int| 0 <= i <= chunks.len() ==> #[trigger] chunk_lba(chunks@, block_size as int, lba as int, i) <= chunk_lba(chunks@, block_size as int, lba as int, chunks.len() as int),
                chunk_lba(chunks@, block_size as int, lba as int, chunks.len() as int) <= u64::MAX,
                cur == chunk_lba(chunks@, block_size as int, lba as int, reqs as int),
                self.sub_queue.spec_tail() == (q0.spec_tail() + reqs) % (len as int),
                reqs < len,
                forall|i: int|
                    0 <= i < reqs ==> #[trigger] queued(
                        self.sub_queue.entries(),
                        q0.spec_tail() as int,
                        old(self).id,
                        ns_id,
                        chunks@,
                        block_size as int,
                        lba as int,
                        write,
                        i,
                    ),
            decreases chunks.len() - reqs, if stopped { 0int } else { 1int },
        {
            let chunk = chunks[reqs];
            let q = chunk.len as u64 / block_size;
            let blocks = if chunk.len as u64 % block_size == 0 {
                q
            } else {
                q + 1
            };
            proof {
                assert(q <= chunk.len) by (nonlinear_arith)
                    requires
                        q == chunk.len as u64 / block_size,
                        block_size >= 1,
                ;
                assert(blocks >= 1) by (nonlinear_arith)
                    requires
                        q == chunk.len as u64 / block_size,
                        chunk.len >= 1,
                        block_size >= 1,
                        blocks == q + if chunk.len as u64 % block_size == 0 { 0u64 } else { 1u64 },
                {
                    vstd::arithmetic::div_mod::lemma_fundamental_div_mod(chunk.len as int, block_size as int);
                }
                assert(blocks <= chunk.len) by (nonlinear_arith)
                    requires
                        q == chunk.len as u64 / block_size,
                        chunk.len >= 1,
                        block_size >= 1,
                        blocks == q + if chunk.len as u64 % block_size == 0 { 0u64 } else { 1u64 },
                {
                    vstd::arithmetic::div_mod::lemma_fundamental_div_mod(chunk.len as int, block_size as int);
                }
                assert(chunk_lba(chunks@, block_size as int, lba as int, reqs + 1) <= chunk_lba(chunks@, block_size as int, lba as int, chunks.len() as int));
            }
            let bytes_big = blocks > 4096 / block_size;
            let ptr1 = if !bytes_big {
                0
            } else {
                chunk.phys_addr + 4096
            };
            proof {
                assert((blocks * block_size <= 4096) == !bytes_big) by (nonlinear_arith)
                    requires
                        bytes_big == (blocks > 4096u64 / block_size),
                        block_size >= 1,
                {
                    vstd::arithmetic::div_mod::lemma_fundamental_div_mod(4096, block_size as int);
                }
            }
            let tail = self.sub_queue.tail;
            let c_id = ((self.id % 32) * 2048 + (tail % 2048) as u16) as u16;
            let entry = if write {
                NvmeCommand::io_write(c_id, ns_id, cur, (blocks - 1) as u16, chunk.phys_addr, ptr1)
            } else {
                NvmeCommand::io_read(c_id, ns_id, cur, (blocks - 1) as u16, chunk.phys_addr, ptr1)
            };
            let ghost before = self.sub_queue.entries();
            proof {
                lemma_ring_step(q0.spec_tail() as int, q0.spec_head() as int, len as int, reqs as int);
            }
            if self.sub_queue.submit_checked(entry).is_none() {
                stopped = true;
            } else {
            proof {
                let t0 = q0.spec_tail() as int;
                let l = len as int;
                assert forall|j: int| 0 <= j < len && ring_dist(t0, j, l) >= reqs + 1 implies #[trigger] self.sub_queue.entries()[j]
                    == q0.entries()[j] by {
                    assert(j != tail);
                }
                assert((t0 + reqs) % l == tail);
                assert((t0 + reqs + 1) % l == (tail + 1) % l) by {
                    vstd::arithmetic::div_mod::lemma_add_mod_noop(t0 + reqs, 1, l);
                    vstd::arithmetic::div_mod::lemma_add_mod_noop(tail as int, 1, l);
                    vstd::arithmetic::div_mod::lemma_mod_twice(t0 + reqs, l);
                }
                assert forall|i: int| 0 <= i < reqs + 1 implies #[trigger] queued(
                    self.sub_queue.entries(),
                    t0,
                    old(self).id,
                    ns_id,
                    chunks@,
                    block_size as int,
                    lba as int,
                    write,
                    i,
                ) by {
                    if i < reqs {
                        lemma_ring_slots_distinct(t0, i, reqs as int, l);
                        assert(queued(before, t0, old(self).id, ns_id, chunks@, block_size as int, lba as int, write, i));
                    }
                }
            }
            cur = cur + blocks;
            reqs = reqs + 1;
            }
        }
        reqs
    }
}

proof fn lemma_chunk_lba_monotone(chunks: Seq<DmaChunk>, block_size: int, lba: int, n: int)
    requires
        block_size >= 1,
        0 <= n <= chunks.len(),
    ensures
        forall|i: int| 0 <= i <= n ==> #[trigger] chunk_lba(chunks, block_size, lba, i) <= chunk_lba(chunks, block_size, lba, n),
    decreases n,
{
    if n > 0 {
        lemma_chunk_lba_monotone(chunks, block_size, lba, n - 1);
        assert(blocks_for(chunks[n - 1].len as int, block_size) >= 0) by (nonlinear_arith)
            requires
                block_size >= 1,
                chunks[n - 1].len >= 0,
        {
            vstd::arithmetic::div_mod::lemma_div_pos_is_pos(chunks[n - 1].len as int, block_size);
        }
    }
}

proof fn lemma_ring_slots_distinct(t0: int, i: int, j: int, l: int)
    requires
        0 <= i < j <= l,
        0 <= t0,
        l >= 1,
        j - i < l,
    ensures
        (t0 + i) % l != (t0 + j) % l,
{
    if (t0 + i) % l == (t0 + j) % l {
        vstd::arithmetic::div_mod::lemma_fundamental_div_mod(t0 + i, l);
        vstd::arithmetic::div_mod::lemma_fundamental_div_mod(t0 + j, l);
        let qi = (t0 + i) / l;
        let qj = (t0 + j) / l;
        assert((qj - qi) * l == j - i) by (nonlinear_arith)
            requires
                t0 + i == l * qi + (t0 + i) % l,
                t0 + j == l * qj + (t0 + j) % l,
                (t0 + i) % l == (t0 + j) % l,
        ;
        assert(false) by (nonlinear_arith)
            requires
                (qj - qi) * l == j - i,
                0 < j - i < l,
                l >= 1,
        ;
    }
}

} // verus!
