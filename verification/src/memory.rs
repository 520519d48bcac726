//! Physical/virtual memory bridge.
//!
//! The boot hand-off supplies a physical memory map: a list of ranges, each
//! usable or reserved. From it the frame source draws page-sized physical
//! frames in order. The page table is modelled as the set of installed
//! mappings, page to frame with its flags; translation walks it the way the
//! processor would, keeping the page offset.

use vstd::prelude::*;

verus! {

/// Size in bytes of a page, and of the frame that backs it.
pub const PAGE_SIZE: u64 = 4096;

/// One range of the boot-supplied physical memory map.
#[derive(Debug, Clone, Copy, PartialEq, Eq, Structural)]
pub struct MemoryRegion {
    pub start: u64,
    pub end: u64,
    pub usable: bool,
}

/// A memory-map range is frame-aligned on both ends and not reversed.
pub open spec fn region_ok(r: MemoryRegion) -> bool {
    &&& r.start <= r.end
    &&& r.start % PAGE_SIZE == 0
    &&& r.end % PAGE_SIZE == 0
}

/// The first `count` frame addresses from `start` on.
pub open spec fn frames_from(start: int, count: int) -> Seq<u64> {
    Seq::new(
        (if count >= 0 {
            count
        } else {
            0
        }) as nat,
        |k: int| (start + PAGE_SIZE * k) as u64,
    )
}

/// The frames a region offers when it is usable: every page-aligned address
/// in `[start, end)`.
pub open spec fn region_frames(r: MemoryRegion) -> Seq<u64> {
    if r.usable {
        frames_from(r.start as int, (r.end - r.start) / (PAGE_SIZE as int))
    } else {
        Seq::empty()
    }
}

/// All frames the memory map offers, region by region in order.
pub open spec fn usable_frames(regions: Seq<MemoryRegion>) -> Seq<u64>
    decreases regions.len(),
{
    if regions.len() == 0 {
        Seq::empty()
    } else {
        usable_frames(regions.drop_last()) + region_frames(regions.last())
    }
}

/// The frame source built from the boot memory map: the usable frames, handed
/// out in order, never reused.
pub struct BootInfoFrameAllocator {
    pub frames: Vec<u64>,
    pub next: usize,
}

impl BootInfoFrameAllocator {
    /// Frames not yet handed out.
    pub open spec fn remaining(&self) -> int {
        self.frames.len() - self.next
    }

    /// Every frame is page-aligned, a full page below the address limit, and
    /// the hand-out position is inside the list.
    pub open spec fn inv(&self) -> bool {
        &&& self.next <= self.frames.len()
        &&& forall|k: int|
            0 <= k < self.frames.len() ==> (#[trigger] self.frames[k]) % PAGE_SIZE == 0
                && self.frames[k] + PAGE_SIZE <= u64::MAX
    }

    /// Builds the frame source from the boot memory map.
    pub fn init(memory_map: &Vec<MemoryRegion>) -> (fa: BootInfoFrameAllocator)
        requires
            forall|i: int| 0 <= i < memory_map.len() ==> region_ok(#[trigger] memory_map[i]),
        ensures
            fa.inv(),
            fa.frames@ == usable_frames(memory_map@),
            fa.next == 0,
    {
        let mut frames: Vec<u64> = Vec::new();
        let mut i: usize = 0;
        while i < memory_map.len()
            invariant
                i <= memory_map.len(),
                forall|t: int| 0 <= t < memory_map.len() ==> region_ok(#[trigger] memory_map[t]),
                frames@ == usable_frames(memory_map@.subrange(0, i as int)),
                forall|k: int|
                    0 <= k < frames.len() ==> (#[trigger] frames[k]) % PAGE_SIZE == 0 && frames[k]
                        + PAGE_SIZE <= u64::MAX,
            decreases memory_map.len() - i,
        {
            let r = memory_map[i];
            if r.usable {
                let ghost count = (r.end - r.start) as int / (PAGE_SIZE as int);
                proof {
                    vstd::arithmetic::div_mod::lemma_fundamental_div_mod(
                        (r.end - r.start) as int,
                        PAGE_SIZE as int,
                    );
                    assert((r.end - r.start) % (PAGE_SIZE as int) == 0) by (nonlinear_arith)
                        requires
                            r.start % PAGE_SIZE == 0,
                            r.end % PAGE_SIZE == 0,
                            r.start <= r.end,
                    ;
                }
                let mut a = r.start;
                let ghost k: int = 0;
                while a < r.end
                    invariant
                        region_ok(r),
                        r.usable,
                        0 <= k,
                        a == r.start + PAGE_SIZE * k,
                        a <= r.end,
                        (r.end - r.start) as int == (PAGE_SIZE as int) * count,
                        frames@ == usable_frames(memory_map@.subrange(0, i as int)) + frames_from(
                            r.start as int,
                            k,
                        ),
                    decreases r.end - a,
                {
                    frames.push(a);
                    proof {
                        assert(frames_from(r.start as int, k + 1) =~= frames_from(
                            r.start as int,
                            k,
                        ).push(a));
                        assert(r.end - a >= PAGE_SIZE) by (nonlinear_arith)
                            requires
                                a == r.start + PAGE_SIZE * k,
                                (r.end - r.start) as int == (PAGE_SIZE as int) * count,
                                a < r.end,
                                0 <= k,
                        ;
                    }
                    a = a + PAGE_SIZE;
                    proof {
                        k = k + 1;
                    }
                }
                proof {
                    assert(k == count) by (nonlinear_arith)
                        requires
                            r.start + PAGE_SIZE * k == r.end,
                            (r.end - r.start) as int == (PAGE_SIZE as int) * count,
                    ;
                    assert(frames_from(r.start as int, k) == region_frames(r));
                }
            }
            i = i + 1;
            proof {
                assert(memory_map@.subrange(0, i as int).drop_last() =~= memory_map@.subrange(
                    0,
                    i as int - 1,
                ));
                assert(memory_map@.subrange(0, i as int).last() == memory_map@[i as int - 1]);
                if !memory_map@[i as int - 1].usable {
                    assert(frames@ =~= frames@ + region_frames(memory_map@[i as int - 1]));
                }
            }
        }
        proof {
            assert(memory_map@.subrange(0, memory_map.len() as int) =~= memory_map@);
        }
        BootInfoFrameAllocator { frames, next: 0 }
    }

    /// Hands out the next usable frame, if one is left.
    pub fn allocate_frame(&mut self) -> (r: Option<u64>)
        requires
            old(self).inv(),
        ensures
            final(self).inv(),
            final(self).frames == old(self).frames,
            old(self).next < old(self).frames.len() ==> r == Some(
                old(self).frames[old(self).next as int],
            ) && final(self).next == old(self).next + 1,
            old(self).next >= old(self).frames.len() ==> r is None && *final(self) == *old(self),
    {
        if self.next < self.frames.len() {
            let f = self.frames[self.next];
            self.next = self.next + 1;
            Some(f)
        } else {
            None
        }
    }
}

/// One installed mapping: a page, the frame that backs it, and its flags.
#[derive(Debug, Clone, Copy, PartialEq, Eq, Structural)]
pub struct Mapping {
    pub page: u64,
    pub frame: u64,
    pub present: bool,
    pub writable: bool,
}

/// The page table, modelled as the list of installed mappings.
pub struct PageTable {
    pub entries: Vec<Mapping>,
}

impl PageTable {
    /// Whether some mapping is installed for this page.
    pub open spec fn is_mapped(&self, page: int) -> bool {
        exists|i: int| 0 <= i < self.entries.len() && (#[trigger] self.entries[i]).page == page
    }

    /// The mapping installed for this page, if any.
    pub open spec fn mapping_of(&self, page: int) -> Option<Mapping> {
        if self.is_mapped(page) {
            Some(
                self.entries[
                    choose|i: int|
                        0 <= i < self.entries.len() && (#[trigger] self.entries[i]).page == page
                ],
            )
        } else {
            None
        }
    }

    /// Pages are distinct, and every entry is page-aligned with a frame a
    /// full page below the address limit.
    pub open spec fn inv(&self) -> bool {
        &&& forall|i: int, j: int|
            0 <= i < j < self.entries.len() ==> (#[trigger] self.entries[i]).page != (
            #[trigger] self.entries[j]).page
        &&& forall|i: int|
            0 <= i < self.entries.len() ==> {
                &&& (#[trigger] self.entries[i]).page % PAGE_SIZE == 0
                &&& self.entries[i].frame % PAGE_SIZE == 0
                &&& self.entries[i].frame + PAGE_SIZE <= u64::MAX
            }
    }

    /// An empty table: nothing is mapped.
    pub fn new() -> (pt: PageTable)
        ensures
            pt.inv(),
            forall|p: int| !pt.is_mapped(p),
            pt.entries@.len() == 0,
    {
        PageTable { entries: Vec::new() }
    }

    /// Installs a mapping for an unmapped page.
    pub fn map_to(&mut self, page: u64, frame: u64, writable: bool)
        requires
            old(self).inv(),
            page % PAGE_SIZE == 0,
            frame % PAGE_SIZE == 0,
            frame + PAGE_SIZE <= u64::MAX,
            !old(self).is_mapped(page as int),
        ensures
            final(self).inv(),
            final(self).mapping_of(page as int) == Some(
                Mapping { page, frame, present: true, writable },
            ),
            forall|p: int| p != page ==> final(self).mapping_of(p) == old(self).mapping_of(p),
            forall|p: int|
                final(self).is_mapped(p) <==> (old(self).is_mapped(p) || p == page),
    {
        let ghost olds = *self;
        self.entries.push(Mapping { page, frame, present: true, writable });
        proof {
            let n = olds.entries.len() as int;
            assert(self.entries[n].page == page);
            assert(self.is_mapped(page as int));
            lemma_page_table_push(olds, *self, page, frame, writable);
        }
    }
}

/// Pushing a mapping for a fresh page extends the lookup function at that
/// page and leaves every other page's lookup unchanged.
proof fn lemma_page_table_push(pt0: PageTable, pt1: PageTable, page: u64, frame: u64, writable: bool)
    requires
        pt0.inv(),
        page % PAGE_SIZE == 0,
        frame % PAGE_SIZE == 0,
        frame + PAGE_SIZE <= u64::MAX,
        !pt0.is_mapped(page as int),
        pt1.entries@ == pt0.entries@.push(Mapping { page, frame, present: true, writable }),
    ensures
        pt1.inv(),
        pt1.mapping_of(page as int) == Some(Mapping { page, frame, present: true, writable }),
        forall|p: int| p != page ==> pt1.mapping_of(p) == pt0.mapping_of(p),
        forall|p: int| pt1.is_mapped(p) <==> (pt0.is_mapped(p) || p == page),
{
    let n = pt0.entries.len() as int;
    assert(pt1.entries[n].page == page);
    assert forall|i: int, j: int| 0 <= i < j < pt1.entries.len() implies (
    #[trigger] pt1.entries[i]).page != (#[trigger] pt1.entries[j]).page by {
        if j < n {
            assert(pt1.entries[i] == pt0.entries[i]);
            assert(pt1.entries[j] == pt0.entries[j]);
        } else {
            assert(pt1.entries[i] == pt0.entries[i]);
            assert(pt0.entries[i].page == pt0.entries[i].page);
        }
    }
    assert(pt1.is_mapped(page as int));
    let ci = choose|i: int|
        0 <= i < pt1.entries.len() && (#[trigger] pt1.entries[i]).page == page as int;
    assert(ci == n) by {
        if ci < n {
            assert(pt1.entries[ci] == pt0.entries[ci]);
            assert(pt0.is_mapped(page as int));
        }
    }
    assert forall|p: int| p != page implies pt1.mapping_of(p) == pt0.mapping_of(p) by {
        if pt1.is_mapped(p) {
            let i = choose|i: int|
                0 <= i < pt1.entries.len() && (#[trigger] pt1.entries[i]).page == p;
            assert(i != n);
            assert(pt1.entries[i] == pt0.entries[i]);
            assert(pt0.is_mapped(p));
            let i0 = choose|i: int|
                0 <= i < pt0.entries.len() && (#[trigger] pt0.entries[i]).page == p;
            assert(pt1.entries[i0] == pt0.entries[i0]);
            assert(i0 == i);
        } else {
            if pt0.is_mapped(p) {
                let i0 = choose|i: int|
                    0 <= i < pt0.entries.len() && (#[trigger] pt0.entries[i]).page == p;
                assert(pt1.entries[i0] == pt0.entries[i0]);
                assert(pt1.is_mapped(p));
            }
        }
    }
    assert forall|p: int| pt1.is_mapped(p) <==> (pt0.is_mapped(p) || p == page) by {
        if pt1.is_mapped(p) && p != page {
            let i = choose|i: int|
                0 <= i < pt1.entries.len() && (#[trigger] pt1.entries[i]).page == p;
            assert(i != n);
            assert(pt1.entries[i] == pt0.entries[i]);
            assert(pt0.is_mapped(p));
        }
        if pt0.is_mapped(p) {
            let i0 = choose|i: int|
                0 <= i < pt0.entries.len() && (#[trigger] pt0.entries[i]).page == p;
            assert(pt1.entries[i0] == pt0.entries[i0]);
            assert(pt1.is_mapped(p));
        }
    }
}

/// The page containing an address: the address with its offset bits cleared.
pub open spec fn page_of(addr: int) -> int {
    addr - addr % (PAGE_SIZE as int)
}

/// Translates a virtual address through the installed mappings: the backing
/// frame plus the page offset, or nothing where the page is unmapped. The
/// offset bits pass through unchanged.
pub fn translate_addr(page_table: &PageTable, virt: u64) -> (phys: Option<u64>)
    requires
        page_table.inv(),
    ensures
        match page_table.mapping_of(page_of(virt as int)) {
            Option::Some(m) => phys == Some((m.frame + virt % PAGE_SIZE) as u64),
            Option::None => phys is None,
        },
        phys matches Some(p) ==> p % PAGE_SIZE == virt % PAGE_SIZE,
{
    let page = virt - virt % PAGE_SIZE;
    let offset = virt % PAGE_SIZE;
    let n = page_table.entries.len();
    let mut i: usize = 0;
    while i < n
        invariant
            page_table.inv(),
            n == page_table.entries.len(),
            i <= n,
            page == page_of(virt as int),
            offset == virt as int % (PAGE_SIZE as int),
            forall|k: int| 0 <= k < i ==> (#[trigger] page_table.entries[k]).page != page,
        decreases n - i,
    {
        let m = page_table.entries[i];
        if m.page == page {
            proof {
                assert(page_table.is_mapped(page as int));
                let ci = choose|t: int|
                    0 <= t < page_table.entries.len() && (#[trigger] page_table.entries[t]).page
                        == page as int;
                assert(ci == i);
                assert((m.frame + offset) % (PAGE_SIZE as int) == offset as int % (
                PAGE_SIZE as int)) by (nonlinear_arith)
                    requires
                        m.frame % PAGE_SIZE == 0,
                        0 <= offset < PAGE_SIZE,
                        offset == virt as int % (PAGE_SIZE as int),
                ;
            }
            return Some(m.frame + offset);
        }
        i = i + 1;
    }
    proof {
        if page_table.is_mapped(page as int) {
            let ci = choose|t: int|
                0 <= t < page_table.entries.len() && (#[trigger] page_table.entries[t]).page
                    == page as int;
            assert(page_table.entries[ci].page != page);
        }
    }
    None
}

} // verus!
