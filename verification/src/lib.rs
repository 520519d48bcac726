//! Early-boot hardware-trust layer of a minimal kernel, as a verified model.
//!
//! The privileged processor structures that must exist before general-purpose
//! code can run — segment/task descriptors, the trap dispatch table, remapped
//! hardware interrupt lines, a fault-isolation stack, and a bootstrap heap —
//! are modelled as plain data with their invariants, and every rule that
//! decides what those structures hold is verified here. The thin layer that
//! pokes the actual registers and ports lives outside the library.

use vstd::prelude::*;

pub mod allocator;
pub mod gdt;
pub mod global_alloc;
pub mod interrupts;
pub mod memory;
pub mod vga_buffer;

verus! {

/// Sentinel written to the fixed diagnostic port to signal clean success or
/// failure to an external test harness.
#[derive(Clone, Copy, Debug, PartialEq, Eq, Structural)]
pub enum QemuExitCode {
    Success,
    Failed,
}

/// The value the diagnostic port receives for each sentinel.
pub open spec fn exit_code_value_spec(code: QemuExitCode) -> u32 {
    match code {
        QemuExitCode::Success => 0x10,
        QemuExitCode::Failed => 0x11,
    }
}

/// Turns a sentinel into the 32-bit value that is written to the port.
pub fn exit_code_value(code: QemuExitCode) -> (v: u32)
    ensures
        v == exit_code_value_spec(code),
{
    match code {
        QemuExitCode::Success => 0x10,
        QemuExitCode::Failed => 0x11,
    }
}

/// The processor structures the boot sequence installs, with the execution
/// state threaded through every trap and handler.
pub struct Kernel {
    pub seg: gdt::Segmentation,
    pub traps: interrupts::TrapVectorTable,
    pub pics: interrupts::InterruptControllerState,
    pub state: interrupts::MachineState,
}

/// The boot sequence finished: segmentation installed, the standard dispatch
/// table active, the controllers remapped to the standard offsets, and the
/// isolated stack large enough for a trap frame.
pub open spec fn booted(k: &Kernel) -> bool {
    &&& k.seg.wf()
    &&& interrupts::is_standard_table(&k.traps)
    &&& k.traps.loaded
    &&& k.pics.wf()
    &&& k.pics.primary.offset == interrupts::PIC_1_OFFSET
    &&& k.pics.secondary.offset == interrupts::PIC_2_OFFSET
    &&& k.seg.tss.df_stack_size >= interrupts::TRAP_FRAME_BYTES
}

/// The boot sequence, in its strict order: segmentation first — the dispatch
/// table's double-fault entry references its isolation slot — then the trap
/// dispatch table, then the controller remap, and only then are hardware
/// interrupts enabled. Each step takes the previous step's output, so the
/// order cannot be broken. Called exactly once per boot.
pub fn init(double_fault_stack_start: u64, boot_ip: u64, boot_sp: u64, stack_floor: u64) -> (k:
    Kernel)
    requires
        double_fault_stack_start + gdt::DOUBLE_FAULT_STACK_SIZE <= u64::MAX,
    ensures
        booted(&k),
        k.state.mode == (interrupts::ExecState::Running { ip: boot_ip, sp: boot_sp }),
        k.state.stack_floor == stack_floor,
        k.state.ticks == 0,
        k.state.diag is None,
        k.state.last_fault is None,
        k.state.interrupts_enabled,
        k.pics.in_service is None,
        forall|line: u8| line < 16 ==> !k.pics.line_masked(line),
        k.seg.tss.df_stack_start == double_fault_stack_start,
        k.seg.tss.df_stack_size == gdt::DOUBLE_FAULT_STACK_SIZE,
{
    let seg = gdt::init(double_fault_stack_start);
    let traps = interrupts::init_dt(&seg);
    let pics = interrupts::remap_and_enable(&traps, interrupts::PIC_1_OFFSET);
    let mut state = interrupts::MachineState::boot(boot_ip, boot_sp, stack_floor);
    state.interrupts_enabled = true;
    Kernel { seg, traps, pics, state }
}

/// One named check a harness can run.
pub trait Testable {
    /// What the check verifies.
    spec fn passes(&self) -> bool;

    /// Runs the check and reports whether it held.
    fn run(&self) -> (ok: bool)
        ensures
            ok == self.passes(),
    ;
}

/// The simplest check the harness runs: two numbers expected equal.
#[derive(Debug, Clone, Copy, PartialEq, Eq, Structural)]
pub struct TrivialCheck {
    pub left: u64,
    pub right: u64,
}

impl Testable for TrivialCheck {
    open spec fn passes(&self) -> bool {
        self.left == self.right
    }

    fn run(&self) -> (ok: bool) {
        self.left == self.right
    }
}

/// Runs the checks in order and reports the sentinel the diagnostic port
/// should receive: success exactly when every check passed.
pub fn test_runner<T: Testable>(tests: &Vec<T>) -> (code: QemuExitCode)
    ensures
        code == QemuExitCode::Success <==> (forall|i: int|
            0 <= i < tests.len() ==> (#[trigger] tests[i]).passes()),
{
    let mut all = true;
    let mut i: usize = 0;
    while i < tests.len()
        invariant
            i <= tests.len(),
            all <==> (forall|t: int| 0 <= t < i ==> (#[trigger] tests@[t]).passes()),
        decreases tests.len() - i,
    {
        let ok = tests[i].run();
        all = all && ok;
        i = i + 1;
    }
    if all {
        QemuExitCode::Success
    } else {
        QemuExitCode::Failed
    }
}

} // verus!
