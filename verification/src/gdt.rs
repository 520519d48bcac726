//! Segment/task state bootstrap.
//!
//! Builds the descriptor table and the task state structure, including the
//! isolation-slot table whose slot 0 points at a reserved stack used only for
//! double-fault recovery. The privileged instructions that hand the finished
//! structures to the processor live outside the library; what is verified
//! here is everything the structures hold.

use vstd::prelude::*;

verus! {

/// Isolation slot reserved for double-fault recovery.
pub const DOUBLE_FAULT_IST_INDEX: u16 = 0;

/// Size in bytes of the statically owned double-fault stack.
pub const DOUBLE_FAULT_STACK_SIZE: u64 = 4096 * 5;

/// Number of isolation slots the task state structure offers.
pub const IST_SLOTS: usize = 7;

/// Task state structure: one stack-top address per isolation slot, plus the
/// bounds of the reserved region that backs the double-fault slot.
pub struct TaskState {
    /// Stack-top address per isolation slot; 0 marks an unused slot.
    pub interrupt_stack_table: Vec<u64>,
    /// First address of the reserved double-fault stack region.
    pub df_stack_start: u64,
    /// Size in bytes of the reserved double-fault stack region.
    pub df_stack_size: u64,
}

impl TaskState {
    /// The double-fault slot points one past the end of the reserved region
    /// (stacks grow downwards), and the region is non-empty.
    pub open spec fn wf(&self) -> bool {
        &&& self.interrupt_stack_table.len() == IST_SLOTS
        &&& self.df_stack_size >= 1
        &&& self.df_stack_start + self.df_stack_size <= u64::MAX
        &&& self.interrupt_stack_table[DOUBLE_FAULT_IST_INDEX as int]
            == self.df_stack_start + self.df_stack_size
        &&& forall|i: int|
            0 < i < IST_SLOTS ==> self.interrupt_stack_table[i] == 0
    }

    /// Builds the task state for a reserved double-fault stack at
    /// `stack_start`, filling the double-fault slot with the region's top.
    pub fn new(stack_start: u64, stack_size: u64) -> (tss: TaskState)
        requires
            stack_size >= 1,
            stack_start + stack_size <= u64::MAX,
        ensures
            tss.wf(),
            tss.df_stack_start == stack_start,
            tss.df_stack_size == stack_size,
    {
        let mut ist: Vec<u64> = Vec::new();
        let mut i: usize = 0;
        while i < IST_SLOTS
            invariant
                i <= IST_SLOTS,
                ist.len() == i,
                forall|k: int| 0 <= k < i ==> ist[k] == 0,
            decreases IST_SLOTS - i,
        {
            ist.push(0);
            i = i + 1;
        }
        ist.set(DOUBLE_FAULT_IST_INDEX as usize, stack_start + stack_size);
        TaskState { interrupt_stack_table: ist, df_stack_start: stack_start, df_stack_size: stack_size }
    }
}

/// The kind of entry a descriptor table slot holds.
#[derive(Debug, Clone, Copy, PartialEq, Eq, Structural)]
pub enum Descriptor {
    KernelCodeSegment,
    TssSegment,
}

/// The descriptor table: an ordered list of descriptors. Entry 0 is the
/// processor-mandated null slot, modelled by starting selectors at 1.
pub struct GlobalDescriptorTable {
    pub entries: Vec<Descriptor>,
}

impl GlobalDescriptorTable {
    pub open spec fn view(&self) -> Seq<Descriptor> {
        self.entries@
    }

    /// An empty table.
    pub fn new() -> (gdt: GlobalDescriptorTable)
        ensures
            gdt@ =~= Seq::<Descriptor>::empty(),
    {
        GlobalDescriptorTable { entries: Vec::new() }
    }

    /// Appends a descriptor and returns its selector: the index of the slot
    /// the descriptor went to, counted from 1 to leave room for the null slot.
    pub fn add_entry(&mut self, descriptor: Descriptor) -> (selector: u16)
        requires
            old(self)@.len() < 7,
        ensures
            final(self)@ == old(self)@.push(descriptor),
            selector == old(self)@.len() + 1,
    {
        let sel = (self.entries.len() + 1) as u16;
        self.entries.push(descriptor);
        sel
    }
}

/// The selectors that the bootstrap hands to the processor: one for the code
/// segment, one for the task-state segment.
#[derive(Debug, Clone, Copy, PartialEq, Eq, Structural)]
pub struct Selectors {
    pub code_selector: u16,
    pub tss_selector: u16,
}

/// The finished segmentation state: the table, the two selectors into it, the
/// task state the table's task-state descriptor refers to, and whether the
/// structures have been handed to the processor.
pub struct Segmentation {
    pub gdt: GlobalDescriptorTable,
    pub selectors: Selectors,
    pub tss: TaskState,
    /// Models that the table and the task-state selector are the ones the
    /// processor currently uses.
    pub loaded: bool,
}

impl Segmentation {
    /// Exactly one code descriptor and one task-state descriptor exist, the
    /// selectors point at them, and the task state is well-formed.
    pub open spec fn wf(&self) -> bool {
        &&& self.gdt@.len() == 2
        &&& self.gdt@[0] == Descriptor::KernelCodeSegment
        &&& self.gdt@[1] == Descriptor::TssSegment
        &&& self.selectors.code_selector == 1
        &&& self.selectors.tss_selector == 2
        &&& self.tss.wf()
        &&& self.loaded
    }
}

/// Builds one code-segment descriptor and one task-state descriptor whose
/// task state reserves `stack_start .. stack_start + DOUBLE_FAULT_STACK_SIZE`
/// for double-fault recovery, and installs the result. Called exactly once
/// per boot, before the trap dispatch table is built.
pub fn init(stack_start: u64) -> (seg: Segmentation)
    requires
        stack_start + DOUBLE_FAULT_STACK_SIZE <= u64::MAX,
    ensures
        seg.wf(),
        seg.tss.df_stack_start == stack_start,
        seg.tss.df_stack_size == DOUBLE_FAULT_STACK_SIZE,
{
    let tss = TaskState::new(stack_start, DOUBLE_FAULT_STACK_SIZE);
    let mut gdt = GlobalDescriptorTable::new();
    let code_selector = gdt.add_entry(Descriptor::KernelCodeSegment);
    let tss_selector = gdt.add_entry(Descriptor::TssSegment);
    Segmentation {
        gdt,
        selectors: Selectors { code_selector, tss_selector },
        tss,
        loaded: true,
    }
}

} // verus!
