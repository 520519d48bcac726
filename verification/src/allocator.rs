//! The bootstrap heap allocator: first fit over a free-block list.
//!
//! The allocator owns one virtual region, handed to it once the memory bridge
//! has mapped it. Its state is the list of free blocks, kept sorted by
//! address and coalesced — two free blocks never touch — plus, as ghost
//! state, the live allocations. Every address it serves is aligned as asked
//! and disjoint from every other live allocation; a request that no free
//! block can place fails exactly then.

use vstd::prelude::*;

use crate::global_alloc::{GlobalAlloc, ranges_disjoint};
use crate::memory::{PageTable, BootInfoFrameAllocator, Mapping, PAGE_SIZE, page_of};

verus! {

/// First address of the virtual heap region.
pub const HEAP_START: u64 = 0x4444_4444_0000;

/// Size in bytes of the virtual heap region.
pub const HEAP_SIZE: u64 = 100 * 1024;

/// One free block: its first address and its length in bytes.
#[derive(Debug, Clone, Copy, PartialEq, Eq, Structural)]
pub struct FreeBlock {
    pub addr: u64,
    pub size: u64,
}

/// The virtual region the allocator owns: a start address and a size.
#[derive(Debug, Clone, Copy, PartialEq, Eq, Structural)]
pub struct HeapRegion {
    pub start: u64,
    pub size: u64,
}

/// Whether some free block covers byte `x`.
pub open spec fn covered(bs: Seq<FreeBlock>, x: int) -> bool {
    exists|i: int| 0 <= i < bs.len() && (#[trigger] bs[i]).addr <= x < bs[i].addr + bs[i].size
}

/// Bytes needed above `addr` to reach the next multiple of `align`.
pub open spec fn align_pad(addr: int, align: int) -> int {
    if addr % align == 0 {
        0
    } else {
        align - addr % align
    }
}

/// The address a request aligned to `align` would get inside block `b`.
pub open spec fn fit_addr(b: FreeBlock, align: int) -> int {
    b.addr + align_pad(b.addr as int, align)
}

/// Whether block `b` can place a request of `size` bytes aligned to `align`.
pub open spec fn block_fits(b: FreeBlock, size: int, align: int) -> bool {
    fit_addr(b, align) + size <= b.addr + b.size
}

/// The first-fit address from block `i` on: the aligned address inside the
/// first block that can place the request.
pub open spec fn first_fit_from(bs: Seq<FreeBlock>, i: int, size: int, align: int) -> Option<int>
    decreases bs.len() - i,
{
    if i < 0 || i >= bs.len() {
        None
    } else if block_fits(bs[i], size, align) {
        Some(fit_addr(bs[i], align))
    } else {
        first_fit_from(bs, i + 1, size, align)
    }
}

/// The first-fit address for a request, over the whole free list.
pub open spec fn first_fit(bs: Seq<FreeBlock>, size: int, align: int) -> Option<int> {
    first_fit_from(bs, 0, size, align)
}

/// The bootstrap heap: a free-block list over one owned region, and the live
/// allocations as ghost state.
pub struct Heap {
    pub region: HeapRegion,
    pub free: Vec<FreeBlock>,
    pub allocated: Ghost<Map<int, (int, int)>>,
}

impl Heap {
    /// The free blocks, as a sequence sorted by address.
    pub open spec fn blocks(&self) -> Seq<FreeBlock> {
        self.free@
    }

    /// The live allocations: address to (size, alignment).
    pub open spec fn live_allocs(&self) -> Map<int, (int, int)> {
        self.allocated@
    }

    pub open spec fn region_wf(&self) -> bool {
        self.region.start + self.region.size <= u64::MAX
    }

    /// A block lies inside the region and is non-empty.
    pub open spec fn block_wf(&self, b: FreeBlock) -> bool {
        &&& b.size >= 1
        &&& self.region.start <= b.addr
        &&& b.addr + b.size <= self.region.start + self.region.size
    }

    /// The free list holds well-formed blocks, sorted by address, coalesced:
    /// consecutive blocks never touch.
    pub open spec fn free_wf(&self) -> bool {
        &&& forall|i: int| 0 <= i < self.blocks().len() ==> self.block_wf(#[trigger] self.blocks()[i])
        &&& forall|i: int|
            0 <= i && i + 1 < self.blocks().len() ==> (#[trigger] self.blocks()[i].addr)
                + self.blocks()[i].size < self.blocks()[i + 1].addr
    }

    /// Live allocations are aligned, sized as recorded, inside the region,
    /// pairwise disjoint, and disjoint from every free block.
    pub open spec fn live_wf(&self) -> bool {
        &&& forall|a: int| #[trigger] self.live_allocs().dom().contains(a) ==> {
            &&& self.live_allocs()[a].0 >= 1
            &&& self.live_allocs()[a].1 >= 1
            &&& a % self.live_allocs()[a].1 == 0
            &&& self.region.start <= a
            &&& a + self.live_allocs()[a].0 <= self.region.start + self.region.size
        }
        &&& forall|a: int, b: int|
            self.live_allocs().dom().contains(a) && self.live_allocs().dom().contains(b) && a != b
                ==> ranges_disjoint(
                a,
                #[trigger] self.live_allocs()[a].0,
                b,
                #[trigger] self.live_allocs()[b].0,
            )
        &&& forall|a: int, i: int|
            #[trigger] self.live_allocs().dom().contains(a) && 0 <= i < self.blocks().len()
                ==> ranges_disjoint(
                a,
                self.live_allocs()[a].0,
                (#[trigger] self.blocks()[i]).addr as int,
                self.blocks()[i].size as int,
            )
    }

    pub open spec fn inv(&self) -> bool {
        &&& self.region_wf()
        &&& self.free_wf()
        &&& self.live_wf()
    }

    /// An allocator that owns nothing yet: every request fails until the
    /// memory bridge hands it a mapped region.
    pub fn empty() -> (h: Heap)
        ensures
            h.inv(),
            h.blocks().len() == 0,
            h.live_allocs() == Map::<int, (int, int)>::empty(),
            h.region.size == 0,
    {
        Heap {
            region: HeapRegion { start: 0, size: 0 },
            free: Vec::new(),
            allocated: Ghost(Map::empty()),
        }
    }

    /// Hands a mapped region to the allocator: from here on the whole region
    /// is one free block and nothing is allocated.
    pub fn init(&mut self, heap_start: u64, heap_size: u64)
        requires
            heap_size >= 1,
            heap_start + heap_size <= u64::MAX,
        ensures
            final(self).inv(),
            final(self).region == (HeapRegion { start: heap_start, size: heap_size }),
            final(self).blocks() == seq![FreeBlock { addr: heap_start, size: heap_size }],
            final(self).live_allocs() == Map::<int, (int, int)>::empty(),
            forall|x: int|
                covered(final(self).blocks(), x) <==> heap_start <= x < heap_start + heap_size,
    {
        let mut free: Vec<FreeBlock> = Vec::new();
        free.push(FreeBlock { addr: heap_start, size: heap_size });
        self.region = HeapRegion { start: heap_start, size: heap_size };
        self.free = free;
        self.allocated = Ghost(Map::empty());
        proof {
            assert(self.blocks() =~= seq![FreeBlock { addr: heap_start, size: heap_size }]);
            assert(self.region_wf());
            assert(self.free_wf());
            assert(self.live_wf());
            assert forall|x: int|
                covered(self.blocks(), x) <==> heap_start <= x < heap_start + heap_size by {
                if heap_start <= x < heap_start + heap_size {
                    assert(self.blocks()[0].addr <= x < self.blocks()[0].addr
                        + self.blocks()[0].size);
                }
            }
        }
    }
}

/// Sorted, coalesced non-empty blocks keep their order at any distance: an
/// earlier block ends before a later one begins.
proof fn lemma_sorted(bs: Seq<FreeBlock>, i: int, j: int)
    requires
        forall|k: int|
            0 <= k && k + 1 < bs.len() ==> (#[trigger] bs[k].addr) + bs[k].size < bs[k + 1].addr,
        forall|k: int| 0 <= k < bs.len() ==> (#[trigger] bs[k]).size >= 1,
        0 <= i < j < bs.len(),
    ensures
        bs[i].addr + bs[i].size < bs[j].addr,
    decreases j - i,
{
    if j > i + 1 {
        lemma_sorted(bs, i, j - 1);
    }
}

/// The padding reaches the next multiple of the alignment and is less than
/// one alignment.
proof fn lemma_align_pad(addr: int, align: int)
    requires
        align >= 1,
        addr >= 0,
    ensures
        0 <= align_pad(addr, align) < align,
        (addr + align_pad(addr, align)) % align == 0,
{
    let r = addr % align;
    if r != 0 {
        vstd::arithmetic::div_mod::lemma_fundamental_div_mod(addr, align);
        let q = addr / align;
        assert(align * (q + 1) == align * q + align) by (nonlinear_arith);
        vstd::arithmetic::div_mod::lemma_mod_multiples_basic(q + 1, align);
        assert((q + 1) * align == align * (q + 1)) by (nonlinear_arith);
    }
}

/// What is left free at the head of a block that places a request aligned to
/// `align`: the bytes below the aligned address, if any.
pub open spec fn front_of(b: FreeBlock, align: int) -> Seq<FreeBlock> {
    let pad = align_pad(b.addr as int, align);
    if pad > 0 {
        seq![FreeBlock { addr: b.addr, size: pad as u64 }]
    } else {
        Seq::empty()
    }
}

/// What is left free at the end of a block that places a request of `size`
/// bytes aligned to `align`: the bytes above the allocation, if any.
pub open spec fn tail_of(b: FreeBlock, size: int, align: int) -> Seq<FreeBlock> {
    let tail_start = fit_addr(b, align) + size;
    let tail_size = b.addr + b.size - tail_start;
    if tail_size > 0 {
        seq![FreeBlock { addr: tail_start as u64, size: tail_size as u64 }]
    } else {
        Seq::empty()
    }
}

/// Splitting block `i` around a first-fit allocation keeps the free list
/// well-formed, removes exactly the allocated bytes from the free set, and
/// places the allocation apart from everything live.
#[verifier::rlimit(100)]
#[verifier::spinoff_prover]
proof fn lemma_allocate_splice(h0: Heap, h1: Heap, i: int, size: int, align: int, a: int)
    requires
        h0.inv(),
        size >= 1,
        align >= 1,
        0 <= i < h0.blocks().len(),
        block_fits(h0.blocks()[i], size, align),
        a == fit_addr(h0.blocks()[i], align),
        first_fit(h0.blocks(), size, align) == first_fit_from(h0.blocks(), i, size, align),
        h1.region == h0.region,
        h1.allocated@ == h0.allocated@.insert(a, (size, align)),
        h1.blocks() == h0.blocks().subrange(0, i) + front_of(h0.blocks()[i], align) + tail_of(
            h0.blocks()[i],
            size,
            align,
        ) + h0.blocks().subrange(i + 1, h0.blocks().len() as int),
    ensures
        h1.inv(),
        first_fit(h0.blocks(), size, align) == Some(a),
        h0.region.start <= a,
        a + size <= h0.region.start + h0.region.size,
        a % align == 0,
        !h0.allocated@.dom().contains(a),
        forall|b: int|
            h0.allocated@.dom().contains(b) ==> ranges_disjoint(
                a,
                size,
                b,
                #[trigger] h0.allocated@[b].0,
            ),
        forall|x: int|
            covered(h1.blocks(), x) <==> (covered(h0.blocks(), x) && !(a <= x < a + size)),
        forall|x: int| a <= x < a + size ==> covered(h0.blocks(), x),
{
    let bs0 = h0.blocks();
    let bs1 = h1.blocks();
    let b = bs0[i];
    let pad = align_pad(b.addr as int, align);
    lemma_align_pad(b.addr as int, align);
    assert(h0.block_wf(b));
    let front = front_of(b, align);
    let tail = tail_of(b, size, align);
    let fl = front.len() as int;
    let tl = tail.len() as int;
    let n0 = bs0.len() as int;
    let n1 = bs1.len() as int;
    assert(n1 == n0 - 1 + fl + tl);

    // every pair of old blocks is ordered and apart
    assert forall|p: int, q: int| 0 <= p < q < n0 implies (#[trigger] bs0[p]).addr + bs0[p].size
        < (#[trigger] bs0[q]).addr by {
        lemma_sorted(bs0, p, q);
    }

    // where each new block comes from
    assert forall|k: int| 0 <= k < i implies bs1[k] == bs0[k] by {}
    assert forall|k: int| i + fl + tl <= k < n1 implies bs1[k] == bs0[k + 1 - fl - tl] by {}
    if fl == 1 {
        assert(bs1[i] == front[0]);
    }
    if tl == 1 {
        assert(bs1[i + fl] == tail[0]);
    }

    // the allocation sits inside block i
    assert(b.addr <= a);
    assert(a + size <= b.addr + b.size);

    // the allocated address is no live allocation
    assert(!h0.allocated@.dom().contains(a)) by {
        if h0.allocated@.dom().contains(a) {
            assert(h0.live_allocs().dom().contains(a));
            assert(ranges_disjoint(
                a,
                h0.live_allocs()[a].0,
                h0.blocks()[i].addr as int,
                h0.blocks()[i].size as int,
            ));
        }
    }
    // the allocation lies apart from every live allocation
    assert forall|l: int| h0.allocated@.dom().contains(l) implies ranges_disjoint(
        a,
        size,
        l,
        #[trigger] h0.allocated@[l].0,
    ) by {
        assert(h0.live_allocs().dom().contains(l));
        assert(ranges_disjoint(
            l,
            h0.live_allocs()[l].0,
            h0.blocks()[i].addr as int,
            h0.blocks()[i].size as int,
        ));
    }

    // the allocated bytes were free
    assert forall|x: int| a <= x < a + size implies covered(bs0, x) by {
        assert(bs0[i].addr <= x < bs0[i].addr + bs0[i].size);
    }

    // the free byte set loses exactly the allocated range
    assert forall|x: int|
        covered(bs1, x) <==> (covered(bs0, x) && !(a <= x < a + size)) by {
        if covered(bs1, x) {
            let k = choose|k: int|
                0 <= k < bs1.len() && (#[trigger] bs1[k]).addr <= x < bs1[k].addr + bs1[k].size;
            if k < i {
                assert(bs1[k] == bs0[k]);
                assert(covered(bs0, x));
            } else if fl == 1 && k == i {
                assert(bs0[i].addr <= x < bs0[i].addr + bs0[i].size);
                assert(covered(bs0, x));
            } else if tl == 1 && k == i + fl {
                assert(bs0[i].addr <= x < bs0[i].addr + bs0[i].size);
                assert(covered(bs0, x));
            } else {
                assert(bs1[k] == bs0[k + 1 - fl - tl]);
                assert(covered(bs0, x));
            }
        }
        if covered(bs0, x) && !(a <= x < a + size) {
            let k = choose|k: int|
                0 <= k < bs0.len() && (#[trigger] bs0[k]).addr <= x < bs0[k].addr + bs0[k].size;
            if k < i {
                assert(bs1[k] == bs0[k]);
                assert(bs1[k].addr <= x < bs1[k].addr + bs1[k].size);
                assert(covered(bs1, x));
            } else if k == i {
                if x < a {
                    assert(fl == 1);
                    assert(bs1[i].addr <= x < bs1[i].addr + bs1[i].size);
                    assert(covered(bs1, x));
                } else {
                    assert(tl == 1);
                    assert(bs1[i + fl].addr <= x < bs1[i + fl].addr + bs1[i + fl].size);
                    assert(covered(bs1, x));
                }
            } else {
                assert(bs1[k - 1 + fl + tl] == bs0[k]);
                assert(bs1[k - 1 + fl + tl].addr <= x < bs1[k - 1 + fl + tl].addr + bs1[k - 1 + fl
                    + tl].size);
                assert(covered(bs1, x));
            }
        }
    }

    // the new free list is well-formed
    assert forall|k: int| 0 <= k < n1 implies h1.block_wf(#[trigger] bs1[k]) by {
        if k < i {
        } else if fl == 1 && k == i {
        } else if tl == 1 && k == i + fl {
        } else {
            assert(bs1[k] == bs0[k + 1 - fl - tl]);
        }
    }
    assert forall|k: int| 0 <= k && k + 1 < n1 implies (#[trigger] bs1[k].addr) + bs1[k].size
        < bs1[k + 1].addr by {
        if k + 1 < i {
        } else if k + 1 == i {
            // bs0[k] against front, tail, or bs0[i + 1]
            assert(bs1[k] == bs0[k]);
        } else if fl == 1 && k == i {
            // front against tail or bs0[i + 1]
        } else if k == i + fl && tl == 1 {
            // tail against bs0[i + 1]
        } else {
            assert(bs1[k] == bs0[k + 1 - fl - tl]);
            assert(bs1[k + 1] == bs0[k + 2 - fl - tl]);
        }
    }
    // live allocations stay apart from the free list
    assert forall|l: int, k: int|
        #[trigger] h1.allocated@.dom().contains(l) && 0 <= k < n1 implies ranges_disjoint(
        l,
        h1.allocated@[l].0,
        (#[trigger] bs1[k]).addr as int,
        bs1[k].size as int,
    ) by {
        if l == a {
            if k < i {
                assert(bs1[k] == bs0[k]);
                assert(bs0[k].addr + bs0[k].size < bs0[i].addr);
            } else if fl == 1 && k == i {
            } else if tl == 1 && k == i + fl {
            } else {
                assert(bs1[k] == bs0[k + 1 - fl - tl]);
                assert(bs0[i].addr + bs0[i].size < bs0[k + 1 - fl - tl].addr);
            }
        } else {
            assert(h0.allocated@.dom().contains(l));
            assert(h0.allocated@[l] == h1.allocated@[l]);
            if k < i {
                assert(bs1[k] == bs0[k]);
                assert(ranges_disjoint(l, h0.allocated@[l].0, bs0[k].addr as int, bs0[k].size as int));
            } else if fl == 1 && k == i {
                assert(ranges_disjoint(l, h0.allocated@[l].0, bs0[i].addr as int, bs0[i].size as int));
            } else if tl == 1 && k == i + fl {
                assert(ranges_disjoint(l, h0.allocated@[l].0, bs0[i].addr as int, bs0[i].size as int));
            } else {
                assert(bs1[k] == bs0[k + 1 - fl - tl]);
                assert(ranges_disjoint(
                    l,
                    h0.allocated@[l].0,
                    bs0[k + 1 - fl - tl].addr as int,
                    bs0[k + 1 - fl - tl].size as int,
                ));
            }
        }
    }
    // live allocations stay pairwise apart
    assert forall|l: int, m: int|
        h1.allocated@.dom().contains(l) && h1.allocated@.dom().contains(m) && l != m
            implies ranges_disjoint(
            l,
            #[trigger] h1.allocated@[l].0,
            m,
            #[trigger] h1.allocated@[m].0,
        ) by {
        if l == a {
            assert(ranges_disjoint(m, h0.allocated@[m].0, b.addr as int, b.size as int));
        } else if m == a {
            assert(ranges_disjoint(l, h0.allocated@[l].0, b.addr as int, b.size as int));
        } else {
            assert(ranges_disjoint(l, h0.allocated@[l].0, m, h0.allocated@[m].0));
        }
    }
    assert(h1.live_wf());
    assert(h1.free_wf());
}

/// The free list after returning `[addr, addr + size)` at position `j`:
/// the freed range is merged with a touching neighbour on either side, so
/// that two free blocks never touch.
pub open spec fn dealloc_merged(bs: Seq<FreeBlock>, j: int, addr: int, size: int) -> Seq<
    FreeBlock,
> {
    let ml = j > 0 && bs[j - 1].addr + bs[j - 1].size == addr;
    let mr = j < bs.len() && addr + size == bs[j].addr;
    if ml && mr {
        bs.update(
            j - 1,
            FreeBlock { addr: bs[j - 1].addr, size: (bs[j - 1].size + size + bs[j].size) as u64 },
        ).remove(j)
    } else if ml {
        bs.update(j - 1, FreeBlock { addr: bs[j - 1].addr, size: (bs[j - 1].size + size) as u64 })
    } else if mr {
        bs.update(j, FreeBlock { addr: addr as u64, size: (size + bs[j].size) as u64 })
    } else {
        bs.insert(j, FreeBlock { addr: addr as u64, size: size as u64 })
    }
}

/// Where a freed range stands relative to the free list: every block before
/// the insertion position ends at or before it, every block from the
/// position on starts at or after its end, and the range lies in the region.
proof fn lemma_deallocate_position(h: Heap, addr: int, size: int, align: int, j: int)
    requires
        h.inv(),
        h.allocated@.dom().contains(addr),
        h.allocated@[addr] == (size, align),
        0 <= j <= h.blocks().len(),
        forall|k: int| 0 <= k < j ==> (#[trigger] h.blocks()[k]).addr < addr,
        j < h.blocks().len() ==> h.blocks()[j].addr >= addr,
    ensures
        size >= 1,
        h.region.start <= addr,
        addr + size <= h.region.start + h.region.size,
        forall|k: int|
            0 <= k < j ==> (#[trigger] h.blocks()[k]).addr + h.blocks()[k].size <= addr,
        forall|k: int|
            j <= k < h.blocks().len() ==> addr + size <= (#[trigger] h.blocks()[k]).addr,
{
    let bs = h.blocks();
    assert(h.live_allocs().dom().contains(addr));
    assert(h.live_allocs()[addr].0 == size);
    assert forall|k: int| 0 <= k < j implies (#[trigger] bs[k]).addr + bs[k].size <= addr by {
        assert(ranges_disjoint(
            addr,
            h.live_allocs()[addr].0,
            h.blocks()[k].addr as int,
            h.blocks()[k].size as int,
        ));
    }
    assert forall|k: int| j <= k < bs.len() implies addr + size <= (#[trigger] bs[k]).addr by {
        assert(ranges_disjoint(
            addr,
            h.live_allocs()[addr].0,
            h.blocks()[j].addr as int,
            h.blocks()[j].size as int,
        ));
        assert(h.block_wf(h.blocks()[j]));
        if k > j {
            lemma_sorted(bs, j, k);
            assert(ranges_disjoint(
                addr,
                h.live_allocs()[addr].0,
                h.blocks()[k].addr as int,
                h.blocks()[k].size as int,
            ));
        }
    }
}

/// After merging a freed range back, the free byte set has gained exactly
/// the freed bytes.
#[verifier::rlimit(100)]
#[verifier::spinoff_prover]
proof fn lemma_deallocate_covered(h0: Heap, h1: Heap, addr: int, size: int, align: int, j: int)
    requires
        h0.inv(),
        h0.allocated@.dom().contains(addr),
        h0.allocated@[addr] == (size, align),
        0 <= j <= h0.blocks().len(),
        forall|k: int|
            0 <= k < j ==> (#[trigger] h0.blocks()[k]).addr + h0.blocks()[k].size <= addr,
        forall|k: int|
            j <= k < h0.blocks().len() ==> addr + size <= (#[trigger] h0.blocks()[k]).addr,
        h1.region == h0.region,
        h1.allocated@ == h0.allocated@.remove(addr),
        h1.blocks() == dealloc_merged(h0.blocks(), j, addr, size),
    ensures
        forall|x: int|
            covered(h1.blocks(), x) <==> (covered(h0.blocks(), x) || (addr <= x < addr + size)),
{
    let bs0 = h0.blocks();
    let bs1 = h1.blocks();
    let n0 = bs0.len() as int;
    let n1 = bs1.len() as int;
    let ml = j > 0 && bs0[j - 1].addr + bs0[j - 1].size == addr;
    let mr = j < n0 && addr + size == bs0[j].addr;

    assert forall|p: int, q: int| 0 <= p < q < n0 implies (#[trigger] bs0[p]).addr + bs0[p].size
        < (#[trigger] bs0[q]).addr by {
        lemma_sorted(bs0, p, q);
    }
    assert(h0.live_allocs().dom().contains(addr));
    assert(h0.live_allocs()[addr].0 == size);

    // index mapping, per case
    if ml && mr {
        assert(n1 == n0 - 1);
        assert forall|k: int| 0 <= k < j - 1 implies bs1[k] == bs0[k] by {}
        assert(bs1[j - 1] == (FreeBlock {
            addr: bs0[j - 1].addr,
            size: (bs0[j - 1].size + size + bs0[j].size) as u64,
        }));
        assert forall|k: int| j <= k < n1 implies bs1[k] == bs0[k + 1] by {}
    } else if ml {
        assert(n1 == n0);
        assert(bs1[j - 1] == (FreeBlock {
            addr: bs0[j - 1].addr,
            size: (bs0[j - 1].size + size) as u64,
        }));
        assert forall|k: int| 0 <= k < n1 && k != j - 1 implies bs1[k] == bs0[k] by {}
    } else if mr {
        assert(n1 == n0);
        assert(bs1[j] == (FreeBlock { addr: addr as u64, size: (size + bs0[j].size) as u64 }));
        assert forall|k: int| 0 <= k < n1 && k != j implies bs1[k] == bs0[k] by {}
    } else {
        assert(n1 == n0 + 1);
        assert forall|k: int| 0 <= k < j implies bs1[k] == bs0[k] by {}
        assert(bs1[j] == (FreeBlock { addr: addr as u64, size: size as u64 }));
        assert forall|k: int| j < k < n1 implies bs1[k] == bs0[k - 1] by {}
    }

    // the free byte set gains exactly the freed range
    assert forall|x: int|
        covered(bs1, x) <==> (covered(bs0, x) || (addr <= x < addr + size)) by {
        if covered(bs1, x) {
            let k = choose|k: int|
                0 <= k < bs1.len() && (#[trigger] bs1[k]).addr <= x < bs1[k].addr + bs1[k].size;
            if ml && mr {
                if k < j - 1 {
                    assert(covered(bs0, x));
                } else if k == j - 1 {
                    if x < addr {
                        assert(bs0[j - 1].addr <= x < bs0[j - 1].addr + bs0[j - 1].size);
                        assert(covered(bs0, x));
                    } else if x >= addr + size {
                        assert(bs0[j].addr <= x < bs0[j].addr + bs0[j].size);
                        assert(covered(bs0, x));
                    }
                } else {
                    assert(bs1[k] == bs0[k + 1]);
                    assert(covered(bs0, x));
                }
            } else if ml {
                if k == j - 1 {
                    if x < addr {
                        assert(bs0[j - 1].addr <= x < bs0[j - 1].addr + bs0[j - 1].size);
                        assert(covered(bs0, x));
                    }
                } else {
                    assert(bs1[k] == bs0[k]);
                    assert(covered(bs0, x));
                }
            } else if mr {
                if k == j {
                    if x >= addr + size {
                        assert(bs0[j].addr <= x < bs0[j].addr + bs0[j].size);
                        assert(covered(bs0, x));
                    }
                } else {
                    assert(bs1[k] == bs0[k]);
                    assert(covered(bs0, x));
                }
            } else {
                if k < j {
                    assert(covered(bs0, x));
                } else if k == j {
                } else {
                    assert(bs1[k] == bs0[k - 1]);
                    assert(covered(bs0, x));
                }
            }
        }
        if covered(bs0, x) {
            let k = choose|k: int|
                0 <= k < bs0.len() && (#[trigger] bs0[k]).addr <= x < bs0[k].addr + bs0[k].size;
            if ml && mr {
                if k < j - 1 {
                    assert(bs1[k].addr <= x < bs1[k].addr + bs1[k].size);
                    assert(covered(bs1, x));
                } else if k == j - 1 || k == j {
                    assert(bs1[j - 1].addr <= x < bs1[j - 1].addr + bs1[j - 1].size);
                    assert(covered(bs1, x));
                } else {
                    assert(bs1[k - 1] == bs0[k]);
                    assert(bs1[k - 1].addr <= x < bs1[k - 1].addr + bs1[k - 1].size);
                    assert(covered(bs1, x));
                }
            } else if ml {
                if k == j - 1 {
                    assert(bs1[j - 1].addr <= x < bs1[j - 1].addr + bs1[j - 1].size);
                    assert(covered(bs1, x));
                } else {
                    assert(bs1[k] == bs0[k]);
                    assert(bs1[k].addr <= x < bs1[k].addr + bs1[k].size);
                    assert(covered(bs1, x));
                }
            } else if mr {
                if k == j {
                    assert(bs1[j].addr <= x < bs1[j].addr + bs1[j].size);
                    assert(covered(bs1, x));
                } else {
                    assert(bs1[k] == bs0[k]);
                    assert(bs1[k].addr <= x < bs1[k].addr + bs1[k].size);
                    assert(covered(bs1, x));
                }
            } else {
                if k < j {
                    assert(bs1[k] == bs0[k]);
                    assert(bs1[k].addr <= x < bs1[k].addr + bs1[k].size);
                    assert(covered(bs1, x));
                } else {
                    assert(bs1[k + 1] == bs0[k]);
                    assert(bs1[k + 1].addr <= x < bs1[k + 1].addr + bs1[k + 1].size);
                    assert(covered(bs1, x));
                }
            }
        }
        if addr <= x < addr + size {
            if ml {
                assert(bs1[j - 1].addr <= x < bs1[j - 1].addr + bs1[j - 1].size);
                assert(covered(bs1, x));
            } else if mr {
                assert(bs1[j].addr <= x < bs1[j].addr + bs1[j].size);
                assert(covered(bs1, x));
            } else {
                assert(bs1[j].addr <= x < bs1[j].addr + bs1[j].size);
                assert(covered(bs1, x));
            }
        }
    }

}

/// After merging a freed range back, the free list is well-formed again:
/// blocks stay inside the region, sorted, and apart.
#[verifier::rlimit(100)]
#[verifier::spinoff_prover]
proof fn lemma_deallocate_free_wf(h0: Heap, h1: Heap, addr: int, size: int, align: int, j: int)
    requires
        h0.inv(),
        h0.allocated@.dom().contains(addr),
        h0.allocated@[addr] == (size, align),
        0 <= j <= h0.blocks().len(),
        forall|k: int|
            0 <= k < j ==> (#[trigger] h0.blocks()[k]).addr + h0.blocks()[k].size <= addr,
        forall|k: int|
            j <= k < h0.blocks().len() ==> addr + size <= (#[trigger] h0.blocks()[k]).addr,
        h1.region == h0.region,
        h1.allocated@ == h0.allocated@.remove(addr),
        h1.blocks() == dealloc_merged(h0.blocks(), j, addr, size),
    ensures
        h1.free_wf(),
{
    let bs0 = h0.blocks();
    let bs1 = h1.blocks();
    let n0 = bs0.len() as int;
    let n1 = bs1.len() as int;
    let ml = j > 0 && bs0[j - 1].addr + bs0[j - 1].size == addr;
    let mr = j < n0 && addr + size == bs0[j].addr;

    assert forall|p: int, q: int| 0 <= p < q < n0 implies (#[trigger] bs0[p]).addr + bs0[p].size
        < (#[trigger] bs0[q]).addr by {
        lemma_sorted(bs0, p, q);
    }
    assert(h0.live_allocs().dom().contains(addr));
    assert(h0.live_allocs()[addr].0 == size);

    // index mapping, per case
    if ml && mr {
        assert(n1 == n0 - 1);
        assert forall|k: int| 0 <= k < j - 1 implies bs1[k] == bs0[k] by {}
        assert(bs1[j - 1] == (FreeBlock {
            addr: bs0[j - 1].addr,
            size: (bs0[j - 1].size + size + bs0[j].size) as u64,
        }));
        assert forall|k: int| j <= k < n1 implies bs1[k] == bs0[k + 1] by {}
    } else if ml {
        assert(n1 == n0);
        assert(bs1[j - 1] == (FreeBlock {
            addr: bs0[j - 1].addr,
            size: (bs0[j - 1].size + size) as u64,
        }));
        assert forall|k: int| 0 <= k < n1 && k != j - 1 implies bs1[k] == bs0[k] by {}
    } else if mr {
        assert(n1 == n0);
        assert(bs1[j] == (FreeBlock { addr: addr as u64, size: (size + bs0[j].size) as u64 }));
        assert forall|k: int| 0 <= k < n1 && k != j implies bs1[k] == bs0[k] by {}
    } else {
        assert(n1 == n0 + 1);
        assert forall|k: int| 0 <= k < j implies bs1[k] == bs0[k] by {}
        assert(bs1[j] == (FreeBlock { addr: addr as u64, size: size as u64 }));
        assert forall|k: int| j < k < n1 implies bs1[k] == bs0[k - 1] by {}
    }

    // index mapping, per case
    if ml && mr {
        assert(n1 == n0 - 1);
        assert forall|k: int| 0 <= k < j - 1 implies bs1[k] == bs0[k] by {}
        assert(bs1[j - 1] == (FreeBlock {
            addr: bs0[j - 1].addr,
            size: (bs0[j - 1].size + size + bs0[j].size) as u64,
        }));
        assert forall|k: int| j <= k < n1 implies bs1[k] == bs0[k + 1] by {}
    } else if ml {
        assert(n1 == n0);
        assert(bs1[j - 1] == (FreeBlock {
            addr: bs0[j - 1].addr,
            size: (bs0[j - 1].size + size) as u64,
        }));
        assert forall|k: int| 0 <= k < n1 && k != j - 1 implies bs1[k] == bs0[k] by {}
    } else if mr {
        assert(n1 == n0);
        assert(bs1[j] == (FreeBlock { addr: addr as u64, size: (size + bs0[j].size) as u64 }));
        assert forall|k: int| 0 <= k < n1 && k != j implies bs1[k] == bs0[k] by {}
    } else {
        assert(n1 == n0 + 1);
        assert forall|k: int| 0 <= k < j implies bs1[k] == bs0[k] by {}
        assert(bs1[j] == (FreeBlock { addr: addr as u64, size: size as u64 }));
        assert forall|k: int| j < k < n1 implies bs1[k] == bs0[k - 1] by {}
    }

    // the freed range lies apart from every remaining live allocation
    assert forall|l: int| h1.allocated@.dom().contains(l) implies ranges_disjoint(
        addr,
        size,
        l,
        #[trigger] h0.allocated@[l].0,
    ) by {
        assert(h0.live_allocs().dom().contains(l));
        assert(l != addr);
        assert(ranges_disjoint(addr, h0.live_allocs()[addr].0, l, h0.live_allocs()[l].0));
    }

    // the new free list is well-formed
    assert forall|k: int| 0 <= k < n1 implies h1.block_wf(#[trigger] bs1[k]) by {
        if ml && mr {
            if k >= j {
                assert(bs1[k] == bs0[k + 1]);
            }
        } else if !ml && !mr {
            if k > j {
                assert(bs1[k] == bs0[k - 1]);
            }
        }
    }
    assert forall|k: int| 0 <= k && k + 1 < n1 implies (#[trigger] bs1[k].addr) + bs1[k].size
        < bs1[k + 1].addr by {
        if ml && mr {
            if k + 1 < j - 1 {
            } else if k + 1 == j - 1 {
                assert(bs1[k] == bs0[k]);
            } else if k == j - 1 {
                assert(bs1[k + 1] == bs0[k + 2]);
            } else {
                assert(bs1[k] == bs0[k + 1]);
                assert(bs1[k + 1] == bs0[k + 2]);
            }
        } else if ml {
            if k == j - 1 && k + 1 < n1 {
                assert(bs1[k + 1] == bs0[k + 1]);
                assert(addr + size <= bs0[j].addr);
                assert(addr + size != bs0[j].addr);
            } else if k + 1 == j - 1 {
                assert(bs1[k] == bs0[k]);
            } else {
                assert(bs1[k] == bs0[k]);
                assert(bs1[k + 1] == bs0[k + 1]);
            }
        } else if mr {
            if k + 1 == j {
                assert(bs1[k] == bs0[k]);
                assert(bs0[k].addr + bs0[k].size <= addr);
                assert(bs0[k].addr + bs0[k].size != addr);
            } else if k == j {
                assert(bs1[k + 1] == bs0[k + 1]);
                assert(h0.block_wf(h0.blocks()[j]));
            } else {
                assert(bs1[k] == bs0[k]);
                assert(bs1[k + 1] == bs0[k + 1]);
            }
        } else {
            if k + 1 == j {
                assert(bs1[k] == bs0[k]);
                assert(bs0[k].addr + bs0[k].size <= addr);
                assert(bs0[k].addr + bs0[k].size != addr);
            } else if k == j && k + 1 < n1 {
                assert(bs1[k + 1] == bs0[k]);
                assert(addr + size <= bs0[k].addr);
                assert(addr + size != bs0[k].addr);
            } else if k < j {
                assert(bs1[k] == bs0[k]);
                assert(bs1[k + 1] == bs0[k + 1]);
            } else {
                assert(bs1[k] == bs0[k - 1]);
                assert(bs1[k + 1] == bs0[k]);
            }
        }
    }
    assert(h1.free_wf());
}

/// After merging a freed range back, the remaining live allocations lie
/// apart from the free list and from each other.
#[verifier::rlimit(100)]
#[verifier::spinoff_prover]
proof fn lemma_deallocate_live_wf(h0: Heap, h1: Heap, addr: int, size: int, align: int, j: int)
    requires
        h0.inv(),
        h0.allocated@.dom().contains(addr),
        h0.allocated@[addr] == (size, align),
        0 <= j <= h0.blocks().len(),
        forall|k: int|
            0 <= k < j ==> (#[trigger] h0.blocks()[k]).addr + h0.blocks()[k].size <= addr,
        forall|k: int|
            j <= k < h0.blocks().len() ==> addr + size <= (#[trigger] h0.blocks()[k]).addr,
        h1.region == h0.region,
        h1.allocated@ == h0.allocated@.remove(addr),
        h1.blocks() == dealloc_merged(h0.blocks(), j, addr, size),
    ensures
        h1.live_wf(),
{
    let bs0 = h0.blocks();
    let bs1 = h1.blocks();
    let n0 = bs0.len() as int;
    let n1 = bs1.len() as int;
    let ml = j > 0 && bs0[j - 1].addr + bs0[j - 1].size == addr;
    let mr = j < n0 && addr + size == bs0[j].addr;

    assert forall|p: int, q: int| 0 <= p < q < n0 implies (#[trigger] bs0[p]).addr + bs0[p].size
        < (#[trigger] bs0[q]).addr by {
        lemma_sorted(bs0, p, q);
    }
    assert(h0.live_allocs().dom().contains(addr));
    assert(h0.live_allocs()[addr].0 == size);

    // index mapping, per case
    if ml && mr {
        assert(n1 == n0 - 1);
        assert forall|k: int| 0 <= k < j - 1 implies bs1[k] == bs0[k] by {}
        assert(bs1[j - 1] == (FreeBlock {
            addr: bs0[j - 1].addr,
            size: (bs0[j - 1].size + size + bs0[j].size) as u64,
        }));
        assert forall|k: int| j <= k < n1 implies bs1[k] == bs0[k + 1] by {}
    } else if ml {
        assert(n1 == n0);
        assert(bs1[j - 1] == (FreeBlock {
            addr: bs0[j - 1].addr,
            size: (bs0[j - 1].size + size) as u64,
        }));
        assert forall|k: int| 0 <= k < n1 && k != j - 1 implies bs1[k] == bs0[k] by {}
    } else if mr {
        assert(n1 == n0);
        assert(bs1[j] == (FreeBlock { addr: addr as u64, size: (size + bs0[j].size) as u64 }));
        assert forall|k: int| 0 <= k < n1 && k != j implies bs1[k] == bs0[k] by {}
    } else {
        assert(n1 == n0 + 1);
        assert forall|k: int| 0 <= k < j implies bs1[k] == bs0[k] by {}
        assert(bs1[j] == (FreeBlock { addr: addr as u64, size: size as u64 }));
        assert forall|k: int| j < k < n1 implies bs1[k] == bs0[k - 1] by {}
    }

    // index mapping, per case
    if ml && mr {
        assert(n1 == n0 - 1);
        assert forall|k: int| 0 <= k < j - 1 implies bs1[k] == bs0[k] by {}
        assert(bs1[j - 1] == (FreeBlock {
            addr: bs0[j - 1].addr,
            size: (bs0[j - 1].size + size + bs0[j].size) as u64,
        }));
        assert forall|k: int| j <= k < n1 implies bs1[k] == bs0[k + 1] by {}
    } else if ml {
        assert(n1 == n0);
        assert(bs1[j - 1] == (FreeBlock {
            addr: bs0[j - 1].addr,
            size: (bs0[j - 1].size + size) as u64,
        }));
        assert forall|k: int| 0 <= k < n1 && k != j - 1 implies bs1[k] == bs0[k] by {}
    } else if mr {
        assert(n1 == n0);
        assert(bs1[j] == (FreeBlock { addr: addr as u64, size: (size + bs0[j].size) as u64 }));
        assert forall|k: int| 0 <= k < n1 && k != j implies bs1[k] == bs0[k] by {}
    } else {
        assert(n1 == n0 + 1);
        assert forall|k: int| 0 <= k < j implies bs1[k] == bs0[k] by {}
        assert(bs1[j] == (FreeBlock { addr: addr as u64, size: size as u64 }));
        assert forall|k: int| j < k < n1 implies bs1[k] == bs0[k - 1] by {}
    }

    // the freed range lies apart from every remaining live allocation
    assert forall|l: int| h1.allocated@.dom().contains(l) implies ranges_disjoint(
        addr,
        size,
        l,
        #[trigger] h0.allocated@[l].0,
    ) by {
        assert(h0.live_allocs().dom().contains(l));
        assert(l != addr);
        assert(ranges_disjoint(addr, h0.live_allocs()[addr].0, l, h0.live_allocs()[l].0));
    }

    // remaining live allocations stay apart from the free list
    assert forall|l: int, k: int|
        #[trigger] h1.allocated@.dom().contains(l) && 0 <= k < n1 implies ranges_disjoint(
        l,
        h1.allocated@[l].0,
        (#[trigger] bs1[k]).addr as int,
        bs1[k].size as int,
    ) by {
        assert(h0.allocated@.dom().contains(l));
        assert(ranges_disjoint(addr, size, l, h0.allocated@[l].0));
        if ml && mr {
            if k < j - 1 {
                assert(bs1[k] == bs0[k]);
                assert(ranges_disjoint(l, h0.allocated@[l].0, bs0[k].addr as int, bs0[k].size as int));
            } else if k == j - 1 {
                assert(ranges_disjoint(l, h0.allocated@[l].0, bs0[j - 1].addr as int, bs0[j - 1].size as int));
                assert(ranges_disjoint(l, h0.allocated@[l].0, bs0[j].addr as int, bs0[j].size as int));
            } else {
                assert(bs1[k] == bs0[k + 1]);
                assert(ranges_disjoint(l, h0.allocated@[l].0, bs0[k + 1].addr as int, bs0[k + 1].size as int));
            }
        } else if ml {
            if k == j - 1 {
                assert(ranges_disjoint(l, h0.allocated@[l].0, bs0[j - 1].addr as int, bs0[j - 1].size as int));
            } else {
                assert(bs1[k] == bs0[k]);
                assert(ranges_disjoint(l, h0.allocated@[l].0, bs0[k].addr as int, bs0[k].size as int));
            }
        } else if mr {
            if k == j {
                assert(ranges_disjoint(l, h0.allocated@[l].0, bs0[j].addr as int, bs0[j].size as int));
            } else {
                assert(bs1[k] == bs0[k]);
                assert(ranges_disjoint(l, h0.allocated@[l].0, bs0[k].addr as int, bs0[k].size as int));
            }
        } else {
            if k < j {
                assert(bs1[k] == bs0[k]);
                assert(ranges_disjoint(l, h0.allocated@[l].0, bs0[k].addr as int, bs0[k].size as int));
            } else if k == j {
            } else {
                assert(bs1[k] == bs0[k - 1]);
                assert(ranges_disjoint(l, h0.allocated@[l].0, bs0[k - 1].addr as int, bs0[k - 1].size as int));
            }
        }
    }
    assert(h1.live_wf());
}

/// Merging a freed range back keeps the free list well-formed and adds
/// exactly the freed bytes to the free set.
proof fn lemma_deallocate_splice(h0: Heap, h1: Heap, addr: int, size: int, align: int, j: int)
    requires
        h0.inv(),
        h0.allocated@.dom().contains(addr),
        h0.allocated@[addr] == (size, align),
        0 <= j <= h0.blocks().len(),
        forall|k: int|
            0 <= k < j ==> (#[trigger] h0.blocks()[k]).addr + h0.blocks()[k].size <= addr,
        forall|k: int|
            j <= k < h0.blocks().len() ==> addr + size <= (#[trigger] h0.blocks()[k]).addr,
        h1.region == h0.region,
        h1.allocated@ == h0.allocated@.remove(addr),
        h1.blocks() == dealloc_merged(h0.blocks(), j, addr, size),
    ensures
        h1.inv(),
        forall|x: int|
            covered(h1.blocks(), x) <==> (covered(h0.blocks(), x) || (addr <= x < addr + size)),
{
    lemma_deallocate_covered(h0, h1, addr, size, align, j);
    lemma_deallocate_free_wf(h0, h1, addr, size, align, j);
    lemma_deallocate_live_wf(h0, h1, addr, size, align, j);
}

impl GlobalAlloc for Heap {
    open spec fn live(&self) -> Map<int, (int, int)> {
        self.allocated@
    }

    open spec fn wf(&self) -> bool {
        self.inv()
    }

    open spec fn can_alloc(&self, size: int, align: int) -> bool {
        first_fit(self.blocks(), size, align) is Some
    }

    /// First fit: the request goes to the lowest aligned address inside the
    /// first free block that can place it; the block's remainder before and
    /// after the allocation stays free.
    #[verifier::rlimit(80)]
    fn allocate(&mut self, size: u64, align: u64) -> (r: Option<u64>)
        ensures
            final(self).region == old(self).region,
            match r {
                Option::Some(addr) => {
                    &&& Some(addr as int) == first_fit(
                        old(self).blocks(),
                        size as int,
                        align as int,
                    )
                    &&& old(self).region.start <= addr
                    &&& addr + size <= old(self).region.start + old(self).region.size
                    &&& final(self).allocated@ == old(self).allocated@.insert(
                        addr as int,
                        (size as int, align as int),
                    )
                    &&& forall|x: int|
                        covered(final(self).blocks(), x) <==> (covered(old(self).blocks(), x) && !(
                        addr <= x < addr + size))
                    &&& forall|x: int| addr <= x < addr + size ==> covered(old(self).blocks(), x)
                },
                Option::None => {
                    &&& final(self).blocks() == old(self).blocks()
                    &&& final(self).allocated@ == old(self).allocated@
                },
            },
    {
        let ghost h0 = *self;
        let ghost bs0 = self.free@;
        let mut i: usize = 0;
        while i < self.free.len()
            invariant
                *self == h0,
                h0 == *old(self),
                h0.inv(),
                self.free@ == bs0,
                size >= 1,
                align >= 1,
                i <= bs0.len(),
                first_fit(bs0, size as int, align as int) == first_fit_from(
                    bs0,
                    i as int,
                    size as int,
                    align as int,
                ),
            decreases bs0.len() - i,
        {
            let b = self.free[i];
            let rem = b.addr % align;
            let pad = if rem == 0 {
                0u64
            } else {
                align - rem
            };
            proof {
                lemma_align_pad(b.addr as int, align as int);
                assert(pad == align_pad(b.addr as int, align as int));
            }
            if pad <= b.size && size <= b.size - pad {
                proof {
                    assert(h0.block_wf(h0.blocks()[i as int]));
                    assert(block_fits(bs0[i as int], size as int, align as int));
                }
                let aligned = b.addr + pad;
                let block_end = b.addr + b.size;
                let tail_start = aligned + size;
                let tail_size = block_end - tail_start;
                self.free.remove(i);
                let mut at: usize = i;
                if pad > 0 {
                    self.free.insert(at, FreeBlock { addr: b.addr, size: pad });
                    at = at + 1;
                }
                if tail_size > 0 {
                    self.free.insert(at, FreeBlock { addr: tail_start, size: tail_size });
                }
                proof {
                    self.allocated@ = self.allocated@.insert(
                        aligned as int,
                        (size as int, align as int),
                    );
                    assert(self.free@ =~= bs0.subrange(0, i as int) + front_of(
                        bs0[i as int],
                        align as int,
                    ) + tail_of(bs0[i as int], size as int, align as int) + bs0.subrange(
                        i as int + 1,
                        bs0.len() as int,
                    ));
                    lemma_allocate_splice(
                        h0,
                        *self,
                        i as int,
                        size as int,
                        align as int,
                        aligned as int,
                    );
                }
                return Some(aligned);
            }
            proof {
                assert(!block_fits(bs0[i as int], size as int, align as int));
                assert(first_fit_from(bs0, i as int, size as int, align as int) == first_fit_from(
                    bs0,
                    i as int + 1,
                    size as int,
                    align as int,
                ));
            }
            i = i + 1;
        }
        proof {
            assert(first_fit_from(bs0, i as int, size as int, align as int) is None);
        }
        None
    }

    /// Freeing returns the block to the list at its address position and
    /// merges it with an adjacent free neighbour on either side, so that two
    /// free blocks never touch.
    fn deallocate(&mut self, addr: u64, size: u64, align: u64)
        ensures
            final(self).region == old(self).region,
            final(self).allocated@ == old(self).allocated@.remove(addr as int),
            forall|x: int|
                covered(final(self).blocks(), x) <==> (covered(old(self).blocks(), x) || (addr <= x
                    < addr + size)),
    {
        let ghost h0 = *self;
        let ghost bs0 = self.free@;
        let mut j: usize = 0;
        while j < self.free.len() && self.free[j].addr < addr
            invariant
                *self == h0,
                h0 == *old(self),
                h0.inv(),
                old(self).allocated@.dom().contains(addr as int),
                old(self).allocated@[addr as int] == (size as int, align as int),
                self.free@ == bs0,
                j <= bs0.len(),
                forall|k: int| 0 <= k < j ==> (#[trigger] bs0[k]).addr < addr,
            decreases bs0.len() - j,
        {
            j = j + 1;
        }
        proof {
            lemma_deallocate_position(h0, addr as int, size as int, align as int, j as int);
            if j > 0 {
                assert(h0.block_wf(h0.blocks()[j as int - 1]));
            }
            if (j as int) < h0.blocks().len() {
                assert(h0.block_wf(h0.blocks()[j as int]));
            }
        }
        let merge_left = j > 0 && {
            let lb = self.free[j - 1];
            lb.addr + lb.size == addr
        };
        let merge_right = j < self.free.len() && {
            let rb = self.free[j];
            addr + size == rb.addr
        };
        if merge_left && merge_right {
            let lb = self.free[j - 1];
            let rb = self.free[j];
            self.free.set(j - 1, FreeBlock { addr: lb.addr, size: lb.size + size + rb.size });
            self.free.remove(j);
        } else if merge_left {
            let lb = self.free[j - 1];
            self.free.set(j - 1, FreeBlock { addr: lb.addr, size: lb.size + size });
        } else if merge_right {
            let rb = self.free[j];
            self.free.set(j, FreeBlock { addr, size: size + rb.size });
        } else {
            self.free.insert(j, FreeBlock { addr, size });
        }
        proof {
            self.allocated@ = self.allocated@.remove(addr as int);
            assert(self.free@ =~= dealloc_merged(bs0, j as int, addr as int, size as int));
            lemma_deallocate_splice(h0, *self, addr as int, size as int, align as int, j as int);
        }
    }

    /// The zero fill concerns memory contents, outside this model; the
    /// allocation itself is `allocate`'s first fit, so it stays inside the
    /// owned region and the region itself never changes.
    fn allocate_zeroed(&mut self, size: u64, align: u64) -> (r: Option<u64>)
        ensures
            final(self).region == old(self).region,
            match r {
                Option::Some(addr) => {
                    &&& old(self).region.start <= addr
                    &&& addr + size <= old(self).region.start + old(self).region.size
                },
                Option::None => {
                    &&& final(self).blocks() == old(self).blocks()
                    &&& final(self).allocated@ == old(self).allocated@
                },
            },
    {
        self.allocate(size, align)
    }

    /// Resizing serves the new block inside the owned region, then frees the
    /// old one; the region itself never changes, and on failure the heap is
    /// untouched.
    fn reallocate(&mut self, addr: u64, size: u64, align: u64, new_size: u64) -> (r: Option<u64>)
        ensures
            final(self).region == old(self).region,
            match r {
                Option::Some(new_addr) => {
                    &&& old(self).region.start <= new_addr
                    &&& new_addr + new_size <= old(self).region.start + old(self).region.size
                },
                Option::None => {
                    &&& final(self).blocks() == old(self).blocks()
                    &&& final(self).allocated@ == old(self).allocated@
                },
            },
    {
        let r = self.allocate(new_size, align);
        match r {
            Some(new_addr) => {
                self.deallocate(addr, size, align);
                Some(new_addr)
            },
            None => None,
        }
    }
}

/// The placeholder allocator installed before the heap exists: it owns
/// nothing, serves nothing, and must never see a free — nothing it served
/// can be live.
pub struct Dummy;

impl GlobalAlloc for Dummy {
    open spec fn live(&self) -> Map<int, (int, int)> {
        Map::empty()
    }

    open spec fn wf(&self) -> bool {
        true
    }

    open spec fn can_alloc(&self, size: int, align: int) -> bool {
        false
    }

    fn allocate(&mut self, size: u64, align: u64) -> (r: Option<u64>) {
        None
    }

    fn deallocate(&mut self, addr: u64, size: u64, align: u64) {
        proof {
            assert(Map::<int, (int, int)>::empty().remove(addr as int) =~= Map::<
                int,
                (int, int),
            >::empty());
        }
    }
}

/// Law: any two distinct live allocations of a well-formed heap are disjoint
/// in their address ranges.
pub proof fn lemma_live_allocations_disjoint(h: &Heap, a: int, b: int)
    requires
        h.inv(),
        h.live_allocs().dom().contains(a),
        h.live_allocs().dom().contains(b),
        a != b,
    ensures
        ranges_disjoint(a, h.live_allocs()[a].0, b, h.live_allocs()[b].0),
{
}

/// Law: freeing exactly what an allocation returned restores the free byte
/// set that the heap had before the allocation — repeated allocation and
/// freeing of one size cannot shrink the free bytes, so the heap's footprint
/// is bounded. The three hypotheses are the free-set clauses of `allocate`
/// and `deallocate` for one allocation at `addr` of `size` bytes.
pub proof fn lemma_allocate_deallocate_round_trip(
    b0: Seq<FreeBlock>,
    b1: Seq<FreeBlock>,
    b2: Seq<FreeBlock>,
    addr: int,
    size: int,
)
    requires
        forall|x: int| covered(b1, x) <==> (covered(b0, x) && !(addr <= x < addr + size)),
        forall|x: int| addr <= x < addr + size ==> covered(b0, x),
        forall|x: int| covered(b2, x) <==> (covered(b1, x) || (addr <= x < addr + size)),
    ensures
        forall|x: int| covered(b2, x) <==> covered(b0, x),
{
    assert forall|x: int| covered(b2, x) <==> covered(b0, x) by {
        assert(covered(b1, x) <==> (covered(b0, x) && !(addr <= x < addr + size)));
        assert(covered(b2, x) <==> (covered(b1, x) || (addr <= x < addr + size)));
    }
}

/// The mapping routine's typed failure: the frame source ran dry before
/// every page of the region had a frame.
#[derive(Debug, Clone, Copy, PartialEq, Eq, Structural)]
pub enum MapError {
    FrameExhausted,
}

/// Number of pages that cover `[start, start + size)`.
pub open spec fn heap_page_count(start: int, size: int) -> int {
    (page_of(start + size - 1) - page_of(start)) / (PAGE_SIZE as int) + 1
}

/// A page boundary is page-aligned and within one page below its address.
proof fn lemma_page_of_bounds(addr: int)
    requires
        addr >= 0,
    ensures
        page_of(addr) % (PAGE_SIZE as int) == 0,
        page_of(addr) <= addr < page_of(addr) + PAGE_SIZE,
        page_of(addr) == (PAGE_SIZE as int) * (addr / (PAGE_SIZE as int)),
{
    let m = PAGE_SIZE as int;
    vstd::arithmetic::div_mod::lemma_fundamental_div_mod(addr, m);
    vstd::arithmetic::div_mod::lemma_mod_multiples_basic(addr / m, m);
    assert((addr / m) * m == m * (addr / m)) by (nonlinear_arith);
}

/// The first and last page of a non-empty region are a whole number of pages
/// apart, and that number is the page count less one.
proof fn lemma_page_span(start: int, size: int)
    requires
        start >= 0,
        size >= 1,
        start + size <= u64::MAX,
    ensures
        ({
            let first = page_of(start);
            let last = page_of(start + size - 1);
            let pages = heap_page_count(start, size);
            &&& pages >= 1
            &&& first <= last
            &&& (PAGE_SIZE as int) * (pages - 1) == last - first
            &&& first % (PAGE_SIZE as int) == 0
            &&& last % (PAGE_SIZE as int) == 0
            &&& start + size <= last + PAGE_SIZE
            &&& first <= start
        }),
{
    let m = PAGE_SIZE as int;
    let first = page_of(start);
    let last = page_of(start + size - 1);
    lemma_page_of_bounds(start);
    lemma_page_of_bounds(start + size - 1);
    let qa = start / m;
    let qb = (start + size - 1) / m;
    vstd::arithmetic::div_mod::lemma_div_is_ordered(start, start + size - 1, m);
    assert(last - first == m * (qb - qa)) by (nonlinear_arith)
        requires
            first == m * qa,
            last == m * qb,
    ;
    vstd::arithmetic::div_mod::lemma_div_multiples_vanish(qb - qa, m);
    assert(first <= last) by (nonlinear_arith)
        requires
            first == m * qa,
            last == m * qb,
            qa <= qb,
            m > 0,
    ;
}

/// For every page in `[virtual_start, virtual_start + size)`, obtains one
/// physical frame from the frame source and installs a present and writable
/// mapping; on success hands the mapped region to the allocator. If the frame
/// source runs dry the region is abandoned, not reclaimed: the mappings
/// already installed stay in place, the allocator stays untouched, and the
/// caller gets the typed failure.
pub fn map_heap_region(
    virtual_start: u64,
    size: u64,
    page_table: &mut PageTable,
    frame_source: &mut BootInfoFrameAllocator,
    heap: &mut Heap,
) -> (r: Result<(), MapError>)
    requires
        old(page_table).inv(),
        old(frame_source).inv(),
        size >= 1,
        virtual_start + size <= u64::MAX - PAGE_SIZE,
        forall|p: int|
            page_of(virtual_start as int) <= p < page_of(virtual_start as int + size - 1)
                + PAGE_SIZE ==> !old(page_table).is_mapped(p),
    ensures
        final(page_table).inv(),
        final(frame_source).inv(),
        final(frame_source).frames == old(frame_source).frames,
        r is Ok <==> old(frame_source).remaining() >= heap_page_count(
            virtual_start as int,
            size as int,
        ),
        ({
            let first = page_of(virtual_start as int);
            let pages = heap_page_count(virtual_start as int, size as int);
            let next0 = old(frame_source).next as int;
            let mapped = if r is Ok {
                pages
            } else {
                old(frame_source).remaining()
            };
            &&& forall|k: int|
                0 <= k < mapped ==> #[trigger] final(page_table).mapping_of(
                    first + (PAGE_SIZE as int) * k,
                ) == Some(
                    Mapping {
                        page: (first + (PAGE_SIZE as int) * k) as u64,
                        frame: old(frame_source).frames[next0 + k],
                        present: true,
                        writable: true,
                    },
                )
            &&& forall|p: int|
                !(first <= p < first + (PAGE_SIZE as int) * mapped)
                    ==> final(page_table).mapping_of(p) == old(page_table).mapping_of(p)
            &&& final(frame_source).next == next0 + mapped
        }),
        r is Ok ==> {
            &&& final(heap).inv()
            &&& final(heap).region == (HeapRegion { start: virtual_start, size })
            &&& final(heap).live_allocs() == Map::<int, (int, int)>::empty()
            &&& forall|x: int|
                covered(final(heap).blocks(), x) <==> virtual_start <= x < virtual_start + size
        },
        r is Err ==> *final(heap) == *old(heap) && r == Err::<(), MapError>(
            MapError::FrameExhausted,
        ),
{
    let first_page = virtual_start - virtual_start % PAGE_SIZE;
    let last_page = (virtual_start + size - 1) - (virtual_start + size - 1) % PAGE_SIZE;
    let ghost pages = heap_page_count(virtual_start as int, size as int);
    let ghost next0 = frame_source.next as int;
    let ghost pt0 = *page_table;
    proof {
        lemma_page_span(virtual_start as int, size as int);
    }
    let mut page = first_page;
    let ghost k: int = 0;
    while page <= last_page
        invariant
            page_table.inv(),
            frame_source.inv(),
            frame_source.frames == old(frame_source).frames,
            *heap == *old(heap),
            pt0 == *old(page_table),
            next0 == old(frame_source).next as int,
            0 <= k,
            first_page == page_of(virtual_start as int),
            last_page == page_of(virtual_start as int + size as int - 1),
            pages == heap_page_count(virtual_start as int, size as int),
            (PAGE_SIZE as int) * (pages - 1) == last_page - first_page,
            first_page % PAGE_SIZE == 0,
            last_page % PAGE_SIZE == 0,
            last_page + PAGE_SIZE <= u64::MAX,
            page == first_page + (PAGE_SIZE as int) * k,
            page % PAGE_SIZE == 0,
            k <= pages,
            k == pages ==> page == last_page + PAGE_SIZE,
            frame_source.next as int == next0 + k,
            forall|p: int|
                first_page <= p < page_of(virtual_start as int + size as int - 1) + PAGE_SIZE
                    ==> !pt0.is_mapped(p),
            forall|t: int|
                0 <= t < k ==> #[trigger] page_table.mapping_of(
                    first_page + (PAGE_SIZE as int) * t,
                ) == Some(
                    Mapping {
                        page: (first_page + (PAGE_SIZE as int) * t) as u64,
                        frame: frame_source.frames[next0 + t],
                        present: true,
                        writable: true,
                    },
                ),
            forall|p: int|
                !(first_page <= p < first_page + (PAGE_SIZE as int) * k) ==> page_table.mapping_of(
                    p,
                ) == pt0.mapping_of(p),
        decreases last_page - page + PAGE_SIZE,
    {
        proof {
            assert(k < pages) by (nonlinear_arith)
                requires
                    page == first_page + (PAGE_SIZE as int) * k,
                    page <= last_page,
                    (PAGE_SIZE as int) * (pages - 1) == last_page - first_page,
                    0 <= k,
            ;
        }
        let frame = match frame_source.allocate_frame() {
            Some(frame) => frame,
            None => {
                proof {
                    assert(old(frame_source).remaining() < pages);
                }
                return Err(MapError::FrameExhausted);
            },
        };
        proof {
            assert(!page_table.is_mapped(page as int)) by {
                assert(page_table.mapping_of(page as int) == pt0.mapping_of(page as int));
                assert((page as int) < page_of(virtual_start as int + size as int - 1) + PAGE_SIZE);
            }
        }
        page_table.map_to(page, frame, true);
        proof {
            let ghost kk = k;
            k = k + 1;
            assert forall|t: int|
                0 <= t < k implies #[trigger] page_table.mapping_of(
                first_page + (PAGE_SIZE as int) * t,
            ) == Some(
                Mapping {
                    page: (first_page + (PAGE_SIZE as int) * t) as u64,
                    frame: frame_source.frames[next0 + t],
                    present: true,
                    writable: true,
                },
            ) by {
                if t < kk {
                    assert((PAGE_SIZE as int) * t < (PAGE_SIZE as int) * kk) by (nonlinear_arith)
                        requires
                            t < kk,
                    ;
                    assert(first_page + (PAGE_SIZE as int) * t != page);
                }
            }
        }
        page = page + PAGE_SIZE;
    }
    proof {
        assert(k == pages) by (nonlinear_arith)
            requires
                page == first_page + (PAGE_SIZE as int) * k,
                page > last_page,
                (PAGE_SIZE as int) * (pages - 1) == last_page - first_page,
                0 <= k <= pages,
            ;
    }
    heap.init(virtual_start, size);
    Ok(())
}

/// Maps the fixed virtual heap region and hands it to the allocator: the
/// bootstrap step after which dynamic allocation exists.
pub fn init_heap(
    page_table: &mut PageTable,
    frame_source: &mut BootInfoFrameAllocator,
    heap: &mut Heap,
) -> (r: Result<(), MapError>)
    requires
        old(page_table).inv(),
        old(frame_source).inv(),
        forall|p: int|
            page_of(HEAP_START as int) <= p < page_of(HEAP_START as int + HEAP_SIZE - 1)
                + PAGE_SIZE ==> !old(page_table).is_mapped(p),
    ensures
        final(page_table).inv(),
        final(frame_source).inv(),
        final(frame_source).frames == old(frame_source).frames,
        r is Ok <==> old(frame_source).remaining() >= heap_page_count(
            HEAP_START as int,
            HEAP_SIZE as int,
        ),
        ({
            let first = page_of(HEAP_START as int);
            let pages = heap_page_count(HEAP_START as int, HEAP_SIZE as int);
            let next0 = old(frame_source).next as int;
            let mapped = if r is Ok {
                pages
            } else {
                old(frame_source).remaining()
            };
            &&& forall|k: int|
                0 <= k < mapped ==> #[trigger] final(page_table).mapping_of(
                    first + (PAGE_SIZE as int) * k,
                ) == Some(
                    Mapping {
                        page: (first + (PAGE_SIZE as int) * k) as u64,
                        frame: old(frame_source).frames[next0 + k],
                        present: true,
                        writable: true,
                    },
                )
            &&& forall|p: int|
                !(first <= p < first + (PAGE_SIZE as int) * mapped)
                    ==> final(page_table).mapping_of(p) == old(page_table).mapping_of(p)
            &&& final(frame_source).next == next0 + mapped
        }),
        r is Ok ==> {
            &&& final(heap).inv()
            &&& final(heap).region == (HeapRegion { start: HEAP_START, size: HEAP_SIZE })
            &&& final(heap).live_allocs() == Map::<int, (int, int)>::empty()
            &&& forall|x: int|
                covered(final(heap).blocks(), x) <==> HEAP_START <= x < HEAP_START + HEAP_SIZE
        },
        r is Err ==> *final(heap) == *old(heap) && r == Err::<(), MapError>(
            MapError::FrameExhausted,
        ),
{
    map_heap_region(HEAP_START, HEAP_SIZE, page_table, frame_source, heap)
}

/// A free list that is sorted, coalesced and non-empty-blocked is the one
/// canonical representation of its free byte set.
#[verifier::rlimit(100)]
#[verifier::spinoff_prover]
proof fn lemma_free_list_canonical(b1: Seq<FreeBlock>, b2: Seq<FreeBlock>)
    requires
        forall|i: int| 0 <= i < b1.len() ==> (#[trigger] b1[i]).size >= 1,
        forall|i: int| 0 <= i < b2.len() ==> (#[trigger] b2[i]).size >= 1,
        forall|i: int|
            0 <= i && i + 1 < b1.len() ==> (#[trigger] b1[i].addr) + b1[i].size < b1[i + 1].addr,
        forall|i: int|
            0 <= i && i + 1 < b2.len() ==> (#[trigger] b2[i].addr) + b2[i].size < b2[i + 1].addr,
        forall|x: int| covered(b1, x) <==> covered(b2, x),
    ensures
        b1 == b2,
    decreases b1.len(),
{
    assert forall|p: int, q: int| 0 <= p < q < b1.len() implies (#[trigger] b1[p]).addr + b1[p].size
        < (#[trigger] b1[q]).addr by {
        lemma_sorted(b1, p, q);
    }
    assert forall|p: int, q: int| 0 <= p < q < b2.len() implies (#[trigger] b2[p]).addr + b2[p].size
        < (#[trigger] b2[q]).addr by {
        lemma_sorted(b2, p, q);
    }
    if b1.len() == 0 {
        if b2.len() > 0 {
            assert(covered(b2, b2[0].addr as int));
            let i = choose|i: int|
                0 <= i < b1.len() && (#[trigger] b1[i]).addr <= (b2[0].addr as int) < b1[i].addr
                    + b1[i].size;
            assert(false);
        }
        assert(b1 =~= b2);
    } else if b2.len() == 0 {
        assert(covered(b1, b1[0].addr as int));
        let i = choose|i: int|
            0 <= i < b2.len() && (#[trigger] b2[i]).addr <= (b1[0].addr as int) < b2[i].addr
                + b2[i].size;
        assert(false);
    } else {
        // the heads start at the least covered byte, so they start together
        assert(covered(b1, b1[0].addr as int));
        assert(covered(b2, b2[0].addr as int));
        let i2 = choose|i: int|
            0 <= i < b2.len() && (#[trigger] b2[i]).addr <= (b1[0].addr as int) < b2[i].addr
                + b2[i].size;
        let i1 = choose|i: int|
            0 <= i < b1.len() && (#[trigger] b1[i]).addr <= (b2[0].addr as int) < b1[i].addr
                + b1[i].size;
        assert(b2[0].addr <= b2[i2].addr);
        assert(b1[0].addr <= b1[i1].addr);
        assert(b1[0].addr == b2[0].addr);
        // equal sizes: were one head shorter, the byte just past it would be
        // covered on the other side only by a later block, which starts
        // beyond the coalescing gap
        assert(b1[0].size == b2[0].size) by {
            if b1[0].size < b2[0].size {
                let x = b1[0].addr + b1[0].size;
                assert(covered(b2, x));
                assert(covered(b1, x));
                let i = choose|i: int|
                    0 <= i < b1.len() && (#[trigger] b1[i]).addr <= x < b1[i].addr + b1[i].size;
                assert(i > 0);
                lemma_sorted(b1, 0, i);
                assert(false);
            }
            if b2[0].size < b1[0].size {
                let x = b2[0].addr + b2[0].size;
                assert(covered(b1, x));
                assert(covered(b2, x));
                let i = choose|i: int|
                    0 <= i < b2.len() && (#[trigger] b2[i]).addr <= x < b2[i].addr + b2[i].size;
                assert(i > 0);
                lemma_sorted(b2, 0, i);
                assert(false);
            }
        }
        let t1 = b1.drop_first();
        let t2 = b2.drop_first();
        assert forall|x: int| covered(t1, x) <==> covered(t2, x) by {
            assert forall|x0: int| covered(t1, x0) implies covered(b1, x0) && !(b1[0].addr <= x0
                < b1[0].addr + b1[0].size) by {
                let i = choose|i: int|
                    0 <= i < t1.len() && (#[trigger] t1[i]).addr <= x0 < t1[i].addr + t1[i].size;
                assert(t1[i] == b1[i + 1]);
                lemma_sorted(b1, 0, i + 1);
            }
            assert forall|x0: int| covered(t2, x0) implies covered(b2, x0) && !(b2[0].addr <= x0
                < b2[0].addr + b2[0].size) by {
                let i = choose|i: int|
                    0 <= i < t2.len() && (#[trigger] t2[i]).addr <= x0 < t2[i].addr + t2[i].size;
                assert(t2[i] == b2[i + 1]);
                lemma_sorted(b2, 0, i + 1);
            }
            if covered(t1, x) {
                assert(covered(b2, x));
                let i = choose|i: int|
                    0 <= i < b2.len() && (#[trigger] b2[i]).addr <= x < b2[i].addr + b2[i].size;
                assert(i > 0);
                assert(t2[i - 1] == b2[i]);
                assert(covered(t2, x));
            }
            if covered(t2, x) {
                assert(covered(b1, x));
                let i = choose|i: int|
                    0 <= i < b1.len() && (#[trigger] b1[i]).addr <= x < b1[i].addr + b1[i].size;
                assert(i > 0);
                assert(t1[i - 1] == b1[i]);
                assert(covered(t1, x));
            }
        }
        assert forall|i: int| 0 <= i < t1.len() implies (#[trigger] t1[i]).size >= 1 by {
            assert(t1[i] == b1[i + 1]);
        }
        assert forall|i: int| 0 <= i < t2.len() implies (#[trigger] t2[i]).size >= 1 by {
            assert(t2[i] == b2[i + 1]);
        }
        assert forall|i: int| 0 <= i && i + 1 < t1.len() implies (#[trigger] t1[i].addr)
            + t1[i].size < t1[i + 1].addr by {
            assert(t1[i] == b1[i + 1]);
            assert(t1[i + 1] == b1[i + 2]);
        }
        assert forall|i: int| 0 <= i && i + 1 < t2.len() implies (#[trigger] t2[i].addr)
            + t2[i].size < t2[i + 1].addr by {
            assert(t2[i] == b2[i + 1]);
            assert(t2[i + 1] == b2[i + 2]);
        }
        lemma_free_list_canonical(t1, t2);
        assert(b1.len() == b2.len());
        assert forall|i: int| 0 <= i < b1.len() implies b1[i] == b2[i] by {
            if i > 0 {
                assert(t1[i - 1] == b1[i]);
                assert(t2[i - 1] == b2[i]);
            }
        }
        assert(b1 =~= b2);
    }
}

/// Law: two well-formed heaps over one region with the same free bytes have
/// the same free list — so a heap whose free byte set an allocate/free pair
/// restored is back in exactly the state it started from.
pub proof fn lemma_heap_state_restored(pre: &Heap, post: &Heap)
    requires
        pre.inv(),
        post.inv(),
        pre.region == post.region,
        forall|x: int| covered(pre.blocks(), x) <==> covered(post.blocks(), x),
    ensures
        pre.blocks() == post.blocks(),
{
    assert forall|i: int| 0 <= i < pre.blocks().len() implies (#[trigger] pre.blocks()[i]).size
        >= 1 by {
        assert(pre.block_wf(pre.blocks()[i]));
    }
    assert forall|i: int| 0 <= i < post.blocks().len() implies (#[trigger] post.blocks()[i]).size
        >= 1 by {
        assert(post.block_wf(post.blocks()[i]));
    }
    lemma_free_list_canonical(pre.blocks(), post.blocks());
}

} // verus!
