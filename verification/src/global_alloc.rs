//! The allocator interface: what any allocator of this kernel promises.
//!
//! An allocation is named by its address and the exact size/alignment pair it
//! was requested with; freeing must present the same pair. Resizing and
//! zero-filled allocation are compositions of the two primitives — the zero
//! fill and the copy concern memory contents, which this model does not hold,
//! so their allocation behaviour is the whole contract.

use vstd::prelude::*;

verus! {

/// Two address ranges that share no byte.
pub open spec fn ranges_disjoint(a: int, a_size: int, b: int, b_size: int) -> bool {
    a + a_size <= b || b + b_size <= a
}

pub trait GlobalAlloc {
    /// The live allocations: address to (size, alignment).
    spec fn live(&self) -> Map<int, (int, int)>;

    /// The allocator's internal invariant.
    spec fn wf(&self) -> bool;

    /// Whether a request of this size and alignment succeeds in this state.
    spec fn can_alloc(&self, size: int, align: int) -> bool;

    /// Serves an allocation: the returned address is aligned as asked, lies
    /// apart from every live allocation, and the request fails exactly when
    /// the allocator cannot place it.
    fn allocate(&mut self, size: u64, align: u64) -> (r: Option<u64>)
        requires
            old(self).wf(),
            size >= 1,
            align >= 1,
        ensures
            final(self).wf(),
            r is Some <==> old(self).can_alloc(size as int, align as int),
            match r {
                Option::Some(addr) => {
                    &&& addr % align == 0
                    &&& !old(self).live().dom().contains(addr as int)
                    &&& forall|b: int|
                        old(self).live().dom().contains(b) ==> ranges_disjoint(
                            addr as int,
                            size as int,
                            b,
                            #[trigger] old(self).live()[b].0,
                        )
                    &&& final(self).live() == old(self).live().insert(
                        addr as int,
                        (size as int, align as int),
                    )
                },
                Option::None => final(self).live() == old(self).live(),
            },
    ;

    /// Frees a live allocation, named with the exact size/alignment pair it
    /// was served with.
    fn deallocate(&mut self, addr: u64, size: u64, align: u64)
        requires
            old(self).wf(),
            old(self).live().dom().contains(addr as int),
            old(self).live()[addr as int] == (size as int, align as int),
        ensures
            final(self).wf(),
            final(self).live() == old(self).live().remove(addr as int),
    ;

    /// An allocation whose bytes the caller may assume zeroed. The zero fill
    /// is memory contents, outside this model; the allocation contract is
    /// `allocate`'s.
    fn allocate_zeroed(&mut self, size: u64, align: u64) -> (r: Option<u64>)
        requires
            old(self).wf(),
            size >= 1,
            align >= 1,
        ensures
            final(self).wf(),
            r is Some <==> old(self).can_alloc(size as int, align as int),
            match r {
                Option::Some(addr) => {
                    &&& addr % align == 0
                    &&& !old(self).live().dom().contains(addr as int)
                    &&& final(self).live() == old(self).live().insert(
                        addr as int,
                        (size as int, align as int),
                    )
                },
                Option::None => final(self).live() == old(self).live(),
            },
    {
        self.allocate(size, align)
    }

    /// Grows or shrinks a live allocation: a new block is served at a fresh
    /// address, apart from every allocation that was live — the old one
    /// included — the contents move (outside this model), and the old block
    /// is freed. On failure the old allocation stands untouched.
    fn reallocate(&mut self, addr: u64, size: u64, align: u64, new_size: u64) -> (r: Option<
        u64,
    >)
        requires
            old(self).wf(),
            old(self).live().dom().contains(addr as int),
            old(self).live()[addr as int] == (size as int, align as int),
            new_size >= 1,
            align >= 1,
        ensures
            final(self).wf(),
            r is Some <==> old(self).can_alloc(new_size as int, align as int),
            match r {
                Option::Some(new_addr) => {
                    &&& new_addr % align == 0
                    &&& !old(self).live().dom().contains(new_addr as int)
                    &&& forall|b: int|
                        old(self).live().dom().contains(b) ==> ranges_disjoint(
                            new_addr as int,
                            new_size as int,
                            b,
                            #[trigger] old(self).live()[b].0,
                        )
                    &&& final(self).live() == old(self).live().insert(
                        new_addr as int,
                        (new_size as int, align as int),
                    ).remove(addr as int)
                },
                Option::None => final(self).live() == old(self).live(),
            },
    {
        let r = self.allocate(new_size, align);
        match r {
            Some(new_addr) => {
                self.deallocate(addr, size, align);
                Some(new_addr)
            },
            None => None,
        }
    }
}

} // verus!
