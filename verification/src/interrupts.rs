//! Trap dispatch table, hardware interrupt controller bridge, and the
//! fault/interrupt handlers, as a verified machine model.
//!
//! The dispatch table maps each of the 256 hardware vectors to a handler and,
//! for the few vectors that must run on an isolated stack, to an isolation
//! slot. The chained interrupt controller pair is modelled with its two
//! vector offsets, its mask registers and the line it is still waiting to see
//! acknowledged. Execution is modelled as a small state machine: running code
//! is trapped into a handler, the handler does its work and either returns or
//! halts, and an unbound vector — or a fault that cannot even be delivered —
//! resets the processor.

use vstd::prelude::*;

use crate::gdt::{TaskState, Segmentation, DOUBLE_FAULT_IST_INDEX, IST_SLOTS};
use crate::{QemuExitCode, exit_code_value_spec};

verus! {

/// Vector of the breakpoint trap.
pub const BREAKPOINT_VECTOR: u8 = 3;

/// Vector of the double fault.
pub const DOUBLE_FAULT_VECTOR: u8 = 8;

/// Vector of the page fault.
pub const PAGE_FAULT_VECTOR: u8 = 14;

/// Vector offset the primary interrupt controller is remapped to.
pub const PIC_1_OFFSET: u8 = 32;

/// Vector offset the secondary interrupt controller is remapped to.
pub const PIC_2_OFFSET: u8 = PIC_1_OFFSET + 8;

/// Bytes the processor pushes on the handler's stack when it delivers a trap.
pub const TRAP_FRAME_BYTES: u64 = 40;

/// Number of hardware vectors.
pub const VECTOR_COUNT: usize = 256;

/// The handlers this core registers.
#[derive(Debug, Clone, Copy, PartialEq, Eq, Structural)]
pub enum HandlerKind {
    Breakpoint,
    DoubleFault,
    PageFault,
    Timer,
    Keyboard,
}

/// One dispatch table entry: the handler a vector is bound to, and the
/// isolation slot its stack is taken from, if any.
#[derive(Debug, Clone, Copy, PartialEq, Eq)]
pub struct TrapGate {
    pub handler: HandlerKind,
    pub stack_slot: Option<u8>,
}

/// An isolation slot named by a gate must exist in the task state.
pub open spec fn gate_slot_ok(gate: Option<TrapGate>) -> bool {
    match gate {
        Option::Some(g) => match g.stack_slot {
            Option::Some(slot) => slot < IST_SLOTS,
            Option::None => true,
        },
        Option::None => true,
    }
}

/// The trap/interrupt dispatch table: one optional gate per vector, and a
/// flag modelling that the table is the one the processor currently uses.
pub struct TrapVectorTable {
    pub entries: Vec<Option<TrapGate>>,
    pub loaded: bool,
}

impl TrapVectorTable {
    pub open spec fn wf(&self) -> bool {
        &&& self.entries.len() == VECTOR_COUNT
        &&& forall|v: int| 0 <= v < VECTOR_COUNT ==> gate_slot_ok(#[trigger] self.entries[v])
    }

    /// What a vector is bound to.
    pub open spec fn gate(&self, vector: int) -> Option<TrapGate> {
        self.entries[vector]
    }

    /// A table with every vector unbound. It is not yet active.
    pub fn new() -> (t: TrapVectorTable)
        ensures
            t.wf(),
            !t.loaded,
            t.entries@ == Seq::new(VECTOR_COUNT as nat, |v: int| None::<TrapGate>),
    {
        let mut entries: Vec<Option<TrapGate>> = Vec::new();
        let mut i: usize = 0;
        while i < VECTOR_COUNT
            invariant
                i <= VECTOR_COUNT,
                entries.len() == i,
                forall|v: int| 0 <= v < i ==> entries[v] is None,
            decreases VECTOR_COUNT - i,
        {
            entries.push(None);
            i = i + 1;
        }
        proof {
            assert(entries@ =~= Seq::new(VECTOR_COUNT as nat, |v: int| None::<TrapGate>));
        }
        TrapVectorTable { entries, loaded: false }
    }

    /// Binds a vector to a handler that runs on the interrupted stack. Once
    /// the table is active its entries are not mutated: changing a binding
    /// means rebuilding the whole table before reloading it.
    pub fn set_handler(&mut self, vector: u8, handler: HandlerKind)
        requires
            old(self).wf(),
            !old(self).loaded,
        ensures
            final(self).wf(),
            final(self).entries@ == old(self).entries@.update(
                vector as int,
                Some(TrapGate { handler, stack_slot: None }),
            ),
            final(self).loaded == old(self).loaded,
    {
        self.entries.set(vector as usize, Some(TrapGate { handler, stack_slot: None }));
    }

    /// Binds a vector to a handler that runs on the given isolation slot's
    /// stack. As with every binding, only before the table is active.
    pub fn set_handler_with_stack(&mut self, vector: u8, handler: HandlerKind, slot: u8)
        requires
            old(self).wf(),
            !old(self).loaded,
            slot < IST_SLOTS,
        ensures
            final(self).wf(),
            final(self).entries@ == old(self).entries@.update(
                vector as int,
                Some(TrapGate { handler, stack_slot: Some(slot) }),
            ),
            final(self).loaded == old(self).loaded,
    {
        self.entries.set(vector as usize, Some(TrapGate { handler, stack_slot: Some(slot) }));
    }
}

/// What the standard boot binds to a vector: breakpoint, double fault on
/// the reserved isolation slot, page fault, and the two remapped hardware
/// lines; every other vector is left unbound.
pub open spec fn standard_gate(vector: int) -> Option<TrapGate> {
    if vector == BREAKPOINT_VECTOR {
        Some(TrapGate { handler: HandlerKind::Breakpoint, stack_slot: None })
    } else if vector == DOUBLE_FAULT_VECTOR {
        Some(TrapGate {
            handler: HandlerKind::DoubleFault,
            stack_slot: Some(DOUBLE_FAULT_IST_INDEX as u8),
        })
    } else if vector == PAGE_FAULT_VECTOR {
        Some(TrapGate { handler: HandlerKind::PageFault, stack_slot: None })
    } else if vector == PIC_1_OFFSET {
        Some(TrapGate { handler: HandlerKind::Timer, stack_slot: None })
    } else if vector == PIC_1_OFFSET + 1 {
        Some(TrapGate { handler: HandlerKind::Keyboard, stack_slot: None })
    } else {
        None
    }
}

/// The table holds exactly the standard bindings.
pub open spec fn is_standard_table(t: &TrapVectorTable) -> bool {
    &&& t.wf()
    &&& forall|v: int| 0 <= v < VECTOR_COUNT ==> t.gate(v) == standard_gate(v)
}

/// Builds the dispatch table with the standard bindings and activates it.
/// The segmentation state must already be installed: the double-fault entry
/// names the isolation slot that the task state provides.
pub fn init_dt(seg: &Segmentation) -> (t: TrapVectorTable)
    requires
        seg.wf(),
    ensures
        is_standard_table(&t),
        t.loaded,
{
    let mut t = TrapVectorTable::new();
    t.set_handler(BREAKPOINT_VECTOR, HandlerKind::Breakpoint);
    t.set_handler_with_stack(
        DOUBLE_FAULT_VECTOR,
        HandlerKind::DoubleFault,
        DOUBLE_FAULT_IST_INDEX as u8,
    );
    t.set_handler(PAGE_FAULT_VECTOR, HandlerKind::PageFault);
    t.set_handler(PIC_1_OFFSET, HandlerKind::Timer);
    t.set_handler(PIC_1_OFFSET + 1, HandlerKind::Keyboard);
    t.loaded = true;
    proof {
        assert forall|v: int| 0 <= v < VECTOR_COUNT implies t.gate(v) == standard_gate(v) by {
        }
    }
    t
}

/// The two hardware interrupt lines this core consumes.
#[derive(Debug, Clone, Copy, PartialEq, Eq, Structural)]
pub enum InterruptIndex {
    Timer,
    Keyboard,
}

impl InterruptIndex {
    /// The vector the line lands on after the standard remap.
    pub open spec fn spec_as_u8(self) -> u8 {
        match self {
            InterruptIndex::Timer => PIC_1_OFFSET,
            InterruptIndex::Keyboard => (PIC_1_OFFSET + 1) as u8,
        }
    }

    pub fn as_u8(self) -> (v: u8)
        ensures
            v == self.spec_as_u8(),
    {
        match self {
            InterruptIndex::Timer => PIC_1_OFFSET,
            InterruptIndex::Keyboard => PIC_1_OFFSET + 1,
        }
    }

    pub fn as_usize(self) -> (v: usize)
        ensures
            v == self.spec_as_u8(),
    {
        self.as_u8() as usize
    }
}

/// One 8-bit controller: its vector offset and its mask register. A set mask
/// bit silences the corresponding line.
#[derive(Debug, Clone, Copy, PartialEq, Eq, Structural)]
pub struct PicController {
    pub offset: u8,
    pub mask: u8,
}

/// The chained controller pair, plus the line the pair is still serving: a
/// delivered line stays in service until the handler acknowledges it, and
/// while it is in service no line of equal or lower priority is delivered.
/// Callers serialize access; an acknowledgement is a single state change
/// here, so a handler holds the state only for that write.
#[derive(Debug, Clone, Copy, PartialEq, Eq)]
pub struct InterruptControllerState {
    pub primary: PicController,
    pub secondary: PicController,
    pub in_service: Option<u8>,
}

/// Priority rank of a hardware line, lower rank served first: the secondary
/// controller cascades through primary line 2, so its lines rank between
/// primary lines 1 and 3. Line 2 itself is the cascade and never delivers.
pub open spec fn line_rank(line: u8) -> int {
    if line < 2 {
        line as int
    } else if line == 2 {
        15
    } else if line < 8 {
        line + 7
    } else {
        line - 6
    }
}

impl InterruptControllerState {
    /// The two offset ranges are contiguous, and disjoint from the fault
    /// vectors below 32.
    pub open spec fn wf(&self) -> bool {
        &&& self.primary.offset >= 32
        &&& self.secondary.offset == self.primary.offset + 8
        &&& self.primary.offset + 16 <= 256
        &&& match self.in_service {
            Option::Some(line) => line < 16 && line != 2,
            Option::None => true,
        }
    }

    /// The vector a hardware line lands on.
    pub open spec fn vector_for_line(&self, line: u8) -> u8 {
        if line < 8 {
            (self.primary.offset + line) as u8
        } else {
            (self.secondary.offset + (line - 8)) as u8
        }
    }

    /// Whether the line's mask bit silences it.
    pub open spec fn line_masked(&self, line: u8) -> bool {
        if line < 8 {
            (self.primary.mask >> line) & 1 == 1
        } else {
            (self.secondary.mask >> (line - 8) as u8) & 1 == 1
        }
    }

    /// Whether the primary controller owns this vector.
    pub open spec fn primary_handles(&self, vector: u8) -> bool {
        self.primary.offset <= vector < self.primary.offset + 8
    }

    /// Whether the secondary controller owns this vector.
    pub open spec fn secondary_handles(&self, vector: u8) -> bool {
        self.secondary.offset <= vector < self.secondary.offset + 8
    }

    /// A line is delivered only if it is unmasked and nothing of equal or
    /// higher rank is still awaiting acknowledgement.
    pub open spec fn delivery_blocked(&self, line: u8) -> bool {
        ||| self.line_masked(line)
        ||| match self.in_service {
            Option::Some(m) => line_rank(line) >= line_rank(m),
            Option::None => false,
        }
    }
}

/// The controller pair after an acknowledgement for `vector`: the controller
/// that owns the vector gets an end-of-interrupt write, and the primary one
/// is always written too when the secondary is (the cascade). The write is
/// non-specific: it retires whatever line the written controller is serving.
pub open spec fn spec_eoi(pics: InterruptControllerState, vector: u8) -> InterruptControllerState {
    match pics.in_service {
        Option::Some(m) => {
            let retires = if m < 8 {
                pics.primary_handles(vector) || pics.secondary_handles(vector)
            } else {
                pics.secondary_handles(vector)
            };
            if retires {
                InterruptControllerState { in_service: None, ..pics }
            } else {
                pics
            }
        },
        Option::None => pics,
    }
}

impl InterruptControllerState {
    /// Sends the end-of-interrupt acknowledgement for the given vector.
    pub fn notify_end_of_interrupt(&mut self, vector: u8)
        requires
            old(self).wf(),
        ensures
            *final(self) == spec_eoi(*old(self), vector),
            final(self).wf(),
    {
        match self.in_service {
            Some(m) => {
                let primary_owns = vector >= self.primary.offset
                    && vector - self.primary.offset < 8;
                let secondary_owns = vector >= self.secondary.offset
                    && vector - self.secondary.offset < 8;
                let retires = if m < 8 {
                    primary_owns || secondary_owns
                } else {
                    secondary_owns
                };
                if retires {
                    self.in_service = None;
                }
            },
            None => {},
        }
    }
}

/// Remaps both chained controllers so hardware line 0 lands on vector
/// `base_offset` and line 1 on `base_offset + 1`, then unmasks every line.
/// The dispatch table must already be active: an unmasked line with no bound
/// vector would reset the processor.
pub fn remap_and_enable(table: &TrapVectorTable, base_offset: u8) -> (pics: InterruptControllerState)
    requires
        table.wf(),
        table.loaded,
        base_offset >= 32,
        base_offset + 16 <= 256,
    ensures
        pics.wf(),
        pics.primary.offset == base_offset,
        pics.secondary.offset == base_offset + 8,
        pics.in_service is None,
        forall|line: u8| line < 16 ==> !pics.line_masked(line),
        forall|line: u8| line < 16 ==> pics.vector_for_line(line) == base_offset + line,
{
    let pics = InterruptControllerState {
        primary: PicController { offset: base_offset, mask: 0 },
        secondary: PicController { offset: base_offset + 8, mask: 0 },
        in_service: None,
    };
    proof {
        assert forall|line: u8| line < 16 implies !pics.line_masked(line) by {
            assert((0u8 >> line) & 1 != 1) by (bit_vector);
            assert((0u8 >> (line - 8) as u8) & 1 != 1) by (bit_vector);
        }
    }
    pics
}

/// The processor context a trap saves: the instruction to resume at and the
/// interrupted stack pointer.
#[derive(Debug, Clone, Copy, PartialEq, Eq, Structural)]
pub struct SavedFrame {
    pub ip: u64,
    pub sp: u64,
}

/// Where execution stands: running ordinary code, inside a handler, halted
/// for good, or reset (the unrecoverable outcome this core exists to avoid).
#[derive(Debug, Clone, Copy, PartialEq, Eq)]
pub enum ExecState {
    Running { ip: u64, sp: u64 },
    InHandler { kind: HandlerKind, frame: SavedFrame, sp: u64 },
    Halted,
    Reset,
}

/// The execution-facing machine state threaded through every trap and
/// handler: the execution mode, the lowest mapped address of the normal
/// stack, the timer tick count, the last value written to the diagnostic
/// port, and the last reported page fault.
#[derive(Debug, Clone, Copy, PartialEq, Eq)]
pub struct MachineState {
    pub mode: ExecState,
    pub stack_floor: u64,
    pub ticks: u64,
    pub diag: Option<u32>,
    pub last_fault: Option<(u64, u64)>,
    pub interrupts_enabled: bool,
}

impl MachineState {
    /// The state right after hand-off from the boot loader: running at the
    /// given context, hardware interrupts still disabled, nothing reported.
    pub fn boot(ip: u64, sp: u64, stack_floor: u64) -> (st: MachineState)
        ensures
            st == (MachineState {
                mode: ExecState::Running { ip, sp },
                stack_floor,
                ticks: 0,
                diag: None,
                last_fault: None,
                interrupts_enabled: false,
            }),
    {
        MachineState {
            mode: ExecState::Running { ip, sp },
            stack_floor,
            ticks: 0,
            diag: None,
            last_fault: None,
            interrupts_enabled: false,
        }
    }
}

/// The frame a trap at `ip`/`sp` saves. A breakpoint is a trap: it resumes at
/// the following instruction (the trapping instruction is one byte); the
/// faults resume at the faulting instruction itself.
pub open spec fn saved_frame(ip: u64, sp: u64, vector: u8) -> SavedFrame {
    SavedFrame { ip: if vector == BREAKPOINT_VECTOR { (ip + 1) as u64 } else { ip }, sp }
}

/// The stack top a gate's handler starts from: the named isolation slot's
/// entry, or the interrupted stack pointer.
pub open spec fn gate_stack_top(gate: TrapGate, tss: &TaskState, sp: u64) -> int {
    match gate.stack_slot {
        Option::Some(slot) => tss.interrupt_stack_table[slot as int] as int,
        Option::None => sp as int,
    }
}

/// The lowest address the push may reach: the reserved region's start for an
/// isolation slot, the normal stack's floor otherwise.
pub open spec fn gate_stack_floor(gate: TrapGate, tss: &TaskState, normal_floor: u64) -> int {
    match gate.stack_slot {
        Option::Some(_) => tss.df_stack_start as int,
        Option::None => normal_floor as int,
    }
}

/// Whether the processor can push the trap frame for this gate.
pub open spec fn gate_push_ok(gate: TrapGate, tss: &TaskState, sp: u64, normal_floor: u64) -> bool {
    gate_stack_top(gate, tss, sp) - TRAP_FRAME_BYTES >= gate_stack_floor(gate, tss, normal_floor)
}

/// The state after entering a gate's handler.
pub open spec fn enter_gate(
    st: MachineState,
    gate: TrapGate,
    tss: &TaskState,
    ip: u64,
    sp: u64,
    vector: u8,
) -> MachineState {
    MachineState {
        mode: ExecState::InHandler {
            kind: gate.handler,
            frame: saved_frame(ip, sp, vector),
            sp: (gate_stack_top(gate, tss, sp) - TRAP_FRAME_BYTES) as u64,
        },
        ..st
    }
}

/// What the occurrence of `vector` does to a running machine. An unbound
/// vector resets. A bound vector whose frame cannot be pushed escalates to
/// the double fault; if even that frame cannot be pushed — or the failing
/// vector was the double fault itself — the processor resets (the triple
/// fault).
pub open spec fn spec_dispatch(
    t: &TrapVectorTable,
    tss: &TaskState,
    st: MachineState,
    vector: u8,
) -> MachineState {
    match st.mode {
        ExecState::Running { ip, sp } => match t.gate(vector as int) {
            Option::None => MachineState { mode: ExecState::Reset, ..st },
            Option::Some(gate) => {
                if gate_push_ok(gate, tss, sp, st.stack_floor) {
                    enter_gate(st, gate, tss, ip, sp, vector)
                } else if vector == DOUBLE_FAULT_VECTOR {
                    MachineState { mode: ExecState::Reset, ..st }
                } else {
                    match t.gate(DOUBLE_FAULT_VECTOR as int) {
                        Option::None => MachineState { mode: ExecState::Reset, ..st },
                        Option::Some(df_gate) => {
                            if gate_push_ok(df_gate, tss, sp, st.stack_floor) {
                                enter_gate(st, df_gate, tss, ip, sp, DOUBLE_FAULT_VECTOR)
                            } else {
                                MachineState { mode: ExecState::Reset, ..st }
                            }
                        },
                    }
                }
            },
        },
        _ => st,
    }
}

/// Computes whether the trap frame for this gate fits on its stack.
fn gate_push_fits(gate: &TrapGate, tss: &TaskState, sp: u64, normal_floor: u64) -> (ok: bool)
    requires
        tss.wf(),
        match gate.stack_slot {
            Option::Some(slot) => slot < IST_SLOTS,
            Option::None => true,
        },
    ensures
        ok == gate_push_ok(*gate, tss, sp, normal_floor),
{
    let top: u64 = match gate.stack_slot {
        Some(slot) => tss.interrupt_stack_table[slot as usize],
        None => sp,
    };
    let floor: u64 = match gate.stack_slot {
        Some(_) => tss.df_stack_start,
        None => normal_floor,
    };
    top >= TRAP_FRAME_BYTES && top - TRAP_FRAME_BYTES >= floor
}

/// Delivers vector `vector` to the running machine through the active
/// dispatch table: the model of the processor's trap entry.
pub fn trigger_trap(t: &TrapVectorTable, tss: &TaskState, st: &mut MachineState, vector: u8)
    requires
        t.wf(),
        t.loaded,
        tss.wf(),
        old(st).mode is Running,
        vector == BREAKPOINT_VECTOR ==> match old(st).mode {
            ExecState::Running { ip, .. } => ip < u64::MAX,
            _ => true,
        },
    ensures
        *final(st) == spec_dispatch(t, tss, *old(st), vector),
{
    let (ip, sp): (u64, u64) = match st.mode {
        ExecState::Running { ip, sp } => (ip, sp),
        _ => {
            proof {
                assert(false);
            }
            (0, 0)
        },
    };
    let gate_opt = t.entries[vector as usize];
    match gate_opt {
        None => {
            st.mode = ExecState::Reset;
        },
        Some(gate) => {
            if gate_push_fits(&gate, tss, sp, st.stack_floor) {
                let top: u64 = match gate.stack_slot {
                    Some(slot) => tss.interrupt_stack_table[slot as usize],
                    None => sp,
                };
                let saved_ip: u64 = if vector == BREAKPOINT_VECTOR { ip + 1 } else { ip };
                st.mode = ExecState::InHandler {
                    kind: gate.handler,
                    frame: SavedFrame { ip: saved_ip, sp },
                    sp: top - TRAP_FRAME_BYTES,
                };
            } else if vector == DOUBLE_FAULT_VECTOR {
                st.mode = ExecState::Reset;
            } else {
                let df_opt = t.entries[DOUBLE_FAULT_VECTOR as usize];
                match df_opt {
                    None => {
                        st.mode = ExecState::Reset;
                    },
                    Some(df_gate) => {
                        if gate_push_fits(&df_gate, tss, sp, st.stack_floor) {
                            let top: u64 = match df_gate.stack_slot {
                                Some(slot) => tss.interrupt_stack_table[slot as usize],
                                None => sp,
                            };
                            st.mode = ExecState::InHandler {
                                kind: df_gate.handler,
                                frame: SavedFrame { ip, sp },
                                sp: top - TRAP_FRAME_BYTES,
                            };
                        } else {
                            st.mode = ExecState::Reset;
                        }
                    },
                }
            }
        },
    }
}

/// The state after a handler returns: the interrupted context is restored
/// exactly — same resume address, same stack pointer, no stack growth.
pub open spec fn spec_handler_return(st: MachineState) -> MachineState {
    match st.mode {
        ExecState::InHandler { kind, frame, sp } => MachineState {
            mode: ExecState::Running { ip: frame.ip, sp: frame.sp },
            ..st
        },
        _ => st,
    }
}

/// The interrupt-return instruction: restores the saved context. A hardware
/// handler that returns this way without first acknowledging its line leaves
/// the controller waiting — the negative case the controller model exposes.
pub fn handler_return(st: &mut MachineState)
    requires
        old(st).mode is InHandler,
    ensures
        *final(st) == spec_handler_return(*old(st)),
{
    match st.mode {
        ExecState::InHandler { kind, frame, sp } => {
            st.mode = ExecState::Running { ip: frame.ip, sp: frame.sp };
        },
        _ => {},
    }
}

/// The breakpoint handler: reports the saved context and returns, resuming
/// the interrupted code at the instruction after the breakpoint.
pub fn breakpoint_handler(st: &mut MachineState) -> (reported: SavedFrame)
    requires
        old(st).mode matches ExecState::InHandler { kind, .. } && kind == HandlerKind::Breakpoint,
    ensures
        *final(st) == spec_handler_return(*old(st)),
        match old(st).mode {
            ExecState::InHandler { frame, .. } => reported == frame,
            _ => false,
        },
{
    let frame = match st.mode {
        ExecState::InHandler { frame, .. } => frame,
        _ => {
            proof {
                assert(false);
            }
            SavedFrame { ip: 0, sp: 0 }
        },
    };
    handler_return(st);
    frame
}

/// The state after the double-fault handler: it reports success through the
/// diagnostic port — reaching this handler at all means the isolated stack
/// did its job — and halts, because the trapped state is not known to be
/// consistent.
pub open spec fn spec_double_fault_handler(st: MachineState) -> MachineState {
    MachineState {
        mode: ExecState::Halted,
        diag: Some(exit_code_value_spec(QemuExitCode::Success)),
        ..st
    }
}

/// The double-fault handler: terminal; reports and stops rather than
/// returning.
pub fn double_fault_handler(st: &mut MachineState)
    requires
        old(st).mode matches ExecState::InHandler { kind, .. } && kind == HandlerKind::DoubleFault,
    ensures
        *final(st) == spec_double_fault_handler(*old(st)),
{
    st.diag = Some(crate::exit_code_value(QemuExitCode::Success));
    st.mode = ExecState::Halted;
}

/// The page-fault handler: records the faulting address (read from the
/// processor's fault-address register at the edge and passed in) and the
/// error code, then halts — no demand-paging recovery exists in this core.
pub fn page_fault_handler(st: &mut MachineState, fault_address: u64, error_code: u64)
    requires
        old(st).mode matches ExecState::InHandler { kind, .. } && kind == HandlerKind::PageFault,
    ensures
        *final(st) == (MachineState {
            mode: ExecState::Halted,
            last_fault: Some((fault_address, error_code)),
            ..*old(st)
        }),
{
    st.last_fault = Some((fault_address, error_code));
    st.mode = ExecState::Halted;
}

/// A tick count about to overflow wraps to zero.
pub open spec fn wrap_inc(t: u64) -> u64 {
    if t == u64::MAX {
        0
    } else {
        (t + 1) as u64
    }
}

/// The timer handler: counts the tick, acknowledges its own line as its last
/// action, and returns.
pub fn timer_interrupt_handler(st: &mut MachineState, pics: &mut InterruptControllerState)
    requires
        old(st).mode matches ExecState::InHandler { kind, .. } && kind == HandlerKind::Timer,
        old(pics).wf(),
        old(pics).primary.offset == PIC_1_OFFSET,
    ensures
        *final(st) == spec_handler_return(
            MachineState { ticks: wrap_inc(old(st).ticks), ..*old(st) },
        ),
        *final(pics) == spec_eoi(*old(pics), InterruptIndex::Timer.spec_as_u8()),
{
    st.ticks = st.ticks.wrapping_add(1);
    pics.notify_end_of_interrupt(InterruptIndex::Timer.as_u8());
    handler_return(st);
}

#[verifier::external_type_specification]
#[verifier::external_body]
pub struct ExKeyEvent(pc_keyboard::KeyEvent);

/// What a scancode decoded to: a printable character, or a key with no
/// character, named by its keycode number.
#[derive(Debug, Clone, Copy, PartialEq, Eq)]
pub enum DecodedInput {
    Unicode(char),
    RawKey(u8),
}

/// The scancode decoder the keyboard handler feeds: the outside decoder's
/// state, owned by the boot code and handed to each keyboard interrupt.
/// Opaque here: pc_keyboard's `Keyboard` is generic over outside traits that
/// cannot be declared, so the whole holder is taken on trust.
#[verifier::external_body]
pub struct KeyboardDecoder {
    kb: pc_keyboard::Keyboard<pc_keyboard::layouts::Us104Key, pc_keyboard::ScancodeSet1>,
}

/// Relies on pc_keyboard::Keyboard::new: a fresh decoder for the US 104-key
/// layout and scancode set 1, with control keys passed through unmapped.
#[verifier::external_body]
fn new_us104_keyboard() -> (decoder: KeyboardDecoder) {
    KeyboardDecoder {
        kb: pc_keyboard::Keyboard::new(
            pc_keyboard::layouts::Us104Key,
            pc_keyboard::ScancodeSet1,
            pc_keyboard::HandleControl::Ignore,
        ),
    }
}

/// Relies on pc_keyboard::Keyboard::add_byte: feeds one scancode byte into
/// the decoder's byte-sequence state machine; a completed sequence yields a
/// key event. A malformed sequence is dropped, as the interrupt handler
/// drops it. What comes back depends on the decoder's hidden state, so
/// nothing is promised of it; the callers state what holds of every outcome.
#[verifier::external_body]
fn keyboard_add_byte(decoder: &mut KeyboardDecoder, scancode: u8) -> (ev: Option<
    pc_keyboard::KeyEvent,
>) {
    match decoder.kb.add_byte(scancode) {
        Ok(Some(ev)) => Some(ev),
        Ok(None) => None,
        Err(_) => None,
    }
}

/// Relies on pc_keyboard::Keyboard::process_keyevent: applies the modifier
/// state and the US 104-key layout to a key event; a key press maps to a
/// character or to a bare keycode, a release or modifier change to nothing.
/// The result depends on the decoder's hidden modifier state, so nothing is
/// promised of it.
#[verifier::external_body]
fn keyboard_process_keyevent(
    decoder: &mut KeyboardDecoder,
    ev: pc_keyboard::KeyEvent,
) -> (key: Option<DecodedInput>) {
    match decoder.kb.process_keyevent(ev) {
        Some(pc_keyboard::DecodedKey::Unicode(c)) => Some(DecodedInput::Unicode(c)),
        Some(pc_keyboard::DecodedKey::RawKey(k)) => Some(DecodedInput::RawKey(k as u8)),
        None => None,
    }
}

impl KeyboardDecoder {
    /// A fresh decoder: no partial byte sequence, no modifiers held.
    pub fn new() -> (decoder: KeyboardDecoder) {
        new_us104_keyboard()
    }

    /// Feeds one scancode byte and returns the decoded key, if this byte
    /// completed one.
    pub fn decode_scancode(&mut self, scancode: u8) -> (key: Option<DecodedInput>) {
        match keyboard_add_byte(self, scancode) {
            Some(ev) => keyboard_process_keyevent(self, ev),
            None => None,
        }
    }
}


/// The keyboard handler: reads nothing itself — the scancode register's value
/// is passed in from the edge — decodes it, acknowledges its own line as its
/// last action, and returns. The decoded key is handed back for the screen
/// writer at the edge; whatever the decoder produced, the controller is
/// acknowledged and the interrupted context is restored exactly.
pub fn keyboard_interrupt_handler(
    decoder: &mut KeyboardDecoder,
    st: &mut MachineState,
    pics: &mut InterruptControllerState,
    scancode: u8,
) -> (key: Option<DecodedInput>)
    requires
        old(st).mode matches ExecState::InHandler { kind, .. } && kind == HandlerKind::Keyboard,
        old(pics).wf(),
        old(pics).primary.offset == PIC_1_OFFSET,
    ensures
        *final(st) == spec_handler_return(*old(st)),
        *final(pics) == spec_eoi(*old(pics), InterruptIndex::Keyboard.spec_as_u8()),
{
    let key = decoder.decode_scancode(scancode);
    pics.notify_end_of_interrupt(InterruptIndex::Keyboard.as_u8());
    handler_return(st);
    key
}

/// A hardware line arriving at the controller pair: if the line is masked or
/// a line of equal or higher rank is still unacknowledged, nothing happens;
/// otherwise the line's vector is dispatched and the line goes in service.
pub open spec fn spec_deliver(
    pics: InterruptControllerState,
    t: &TrapVectorTable,
    tss: &TaskState,
    st: MachineState,
    line: u8,
) -> (InterruptControllerState, MachineState, bool) {
    if pics.delivery_blocked(line) {
        (pics, st, false)
    } else {
        (
            InterruptControllerState { in_service: Some(line), ..pics },
            spec_dispatch(t, tss, st, pics.vector_for_line(line)),
            true,
        )
    }
}

/// Delivers hardware line `line` through the controller pair to the running
/// machine, honouring masks and the pending acknowledgement.
pub fn deliver_line(
    pics: &mut InterruptControllerState,
    t: &TrapVectorTable,
    tss: &TaskState,
    st: &mut MachineState,
    line: u8,
) -> (delivered: bool)
    requires
        old(pics).wf(),
        t.wf(),
        t.loaded,
        tss.wf(),
        old(st).mode is Running,
        old(st).interrupts_enabled,
        line < 16,
        line != 2,
    ensures
        (*final(pics), *final(st), delivered) == spec_deliver(*old(pics), t, tss, *old(st), line),
        final(pics).wf(),
{
    let masked = if line < 8 {
        (pics.primary.mask >> line) & 1 == 1
    } else {
        (pics.secondary.mask >> (line - 8)) & 1 == 1
    };
    let blocked = masked || match pics.in_service {
        Some(m) => line_rank_number(line) >= line_rank_number(m),
        None => false,
    };
    if blocked {
        return false;
    }
    let vector = if line < 8 {
        pics.primary.offset + line
    } else {
        pics.secondary.offset + (line - 8)
    };
    pics.in_service = Some(line);
    trigger_trap(t, tss, st, vector);
    true
}

/// The priority rank of a line, as a runtime value.
fn line_rank_number(line: u8) -> (rank: u8)
    ensures
        rank == line_rank(line),
{
    if line < 2 {
        line
    } else if line == 2 {
        15
    } else if line < 8 {
        line + 7
    } else {
        line - 6
    }
}

/// Triggers a breakpoint trap on the running machine and runs its handler:
/// execution resumes at the instruction after the breakpoint, on the same
/// stack, and the handler reports the context it saw.
pub fn test_breakpoint_exception(
    t: &TrapVectorTable,
    tss: &TaskState,
    st: &mut MachineState,
) -> (reported: SavedFrame)
    requires
        is_standard_table(t),
        t.loaded,
        tss.wf(),
        old(st).mode matches ExecState::Running { ip, sp }
            && ip < u64::MAX
            && sp - TRAP_FRAME_BYTES >= old(st).stack_floor,
    ensures
        match old(st).mode {
            ExecState::Running { ip, sp } => {
                &&& *final(st) == (MachineState {
                    mode: ExecState::Running { ip: (ip + 1) as u64, sp },
                    ..*old(st)
                })
                &&& reported == (SavedFrame { ip: (ip + 1) as u64, sp })
            },
            _ => false,
        },
{
    let ghost pre = *st;
    trigger_trap(t, tss, st, BREAKPOINT_VECTOR);
    proof {
        assert(t.gate(BREAKPOINT_VECTOR as int) == standard_gate(BREAKPOINT_VECTOR as int));
        match pre.mode {
            ExecState::Running { ip, sp } => {
                lemma_breakpoint_round_trip(t, tss, pre, ip, sp);
            },
            _ => {},
        }
    }
    breakpoint_handler(st)
}

/// Law: a breakpoint trap followed by its handler's return resumes the
/// interrupted code exactly once, at the following instruction, with the
/// stack pointer it had — no stack growth survives the round trip.
pub proof fn lemma_breakpoint_round_trip(
    t: &TrapVectorTable,
    tss: &TaskState,
    st: MachineState,
    ip: u64,
    sp: u64,
)
    requires
        is_standard_table(t),
        tss.wf(),
        st.mode == (ExecState::Running { ip, sp }),
        ip < u64::MAX,
        sp - TRAP_FRAME_BYTES >= st.stack_floor,
    ensures
        spec_handler_return(spec_dispatch(t, tss, st, BREAKPOINT_VECTOR)) == (MachineState {
            mode: ExecState::Running { ip: (ip + 1) as u64, sp },
            ..st
        }),
{
    assert(t.gate(BREAKPOINT_VECTOR as int) == standard_gate(BREAKPOINT_VECTOR as int));
}

/// Law: a handler bound to the double-fault isolation slot starts with its
/// stack pointer inside the reserved isolated region — never on the
/// interrupted stack.
pub proof fn lemma_isolated_stack_pointer(
    t: &TrapVectorTable,
    tss: &TaskState,
    st: MachineState,
    vector: u8,
)
    requires
        t.wf(),
        tss.wf(),
        st.mode is Running,
        t.gate(vector as int) matches Some(g)
            && g.stack_slot == Some(DOUBLE_FAULT_IST_INDEX as u8),
        tss.df_stack_size >= TRAP_FRAME_BYTES,
    ensures
        match spec_dispatch(t, tss, st, vector).mode {
            ExecState::InHandler { sp, .. } => {
                tss.df_stack_start <= sp < tss.df_stack_start + tss.df_stack_size
            },
            _ => false,
        },
{
}

/// Law: when recursion has exhausted the normal stack, the page fault that
/// the overflow raises cannot push its frame there, so it escalates to the
/// double fault, which runs on the reserved isolated stack and reports
/// success through the diagnostic port instead of resetting the processor.
pub proof fn lemma_stack_overflow_reaches_isolated_handler(
    t: &TrapVectorTable,
    tss: &TaskState,
    st: MachineState,
    ip: u64,
    sp: u64,
)
    requires
        is_standard_table(t),
        tss.wf(),
        tss.df_stack_size >= TRAP_FRAME_BYTES,
        st.mode == (ExecState::Running { ip, sp }),
        sp - TRAP_FRAME_BYTES < st.stack_floor,
    ensures
        ({
            let trapped = spec_dispatch(t, tss, st, PAGE_FAULT_VECTOR);
            &&& trapped.mode matches ExecState::InHandler { kind, sp: hsp, .. }
                && kind == HandlerKind::DoubleFault
                && tss.df_stack_start <= hsp < tss.df_stack_start + tss.df_stack_size
            &&& spec_double_fault_handler(trapped).mode is Halted
            &&& spec_double_fault_handler(trapped).diag == Some(
                exit_code_value_spec(QemuExitCode::Success),
            )
        }),
{
    assert(t.gate(PAGE_FAULT_VECTOR as int) == standard_gate(PAGE_FAULT_VECTOR as int));
    assert(t.gate(DOUBLE_FAULT_VECTOR as int) == standard_gate(DOUBLE_FAULT_VECTOR as int));
}

/// Law: after the controllers are remapped to offsets (32, 40), hardware
/// line 0 lands on the handler bound to vector 32 and line 1 on the handler
/// bound to vector 33, and each delivered line goes in service.
pub proof fn lemma_remap_routes_lines(
    pics: InterruptControllerState,
    t: &TrapVectorTable,
    tss: &TaskState,
    st: MachineState,
    line: u8,
)
    requires
        pics.wf(),
        pics.primary.offset == PIC_1_OFFSET,
        pics.secondary.offset == PIC_2_OFFSET,
        pics.in_service is None,
        is_standard_table(t),
        tss.wf(),
        st.mode matches ExecState::Running { ip, sp }
            && sp - TRAP_FRAME_BYTES >= st.stack_floor,
        line == 0 || line == 1,
        !pics.line_masked(line),
    ensures
        ({
            let (pics1, st1, delivered) = spec_deliver(pics, t, tss, st, line);
            &&& delivered
            &&& pics1.in_service == Some(line)
            &&& pics.vector_for_line(line) == PIC_1_OFFSET + line
            &&& st1.mode matches ExecState::InHandler { kind, .. } && kind == (
                if line == 0 {
                    HandlerKind::Timer
                } else {
                    HandlerKind::Keyboard
                }
            )
        }),
{
    assert(t.gate(PIC_1_OFFSET as int) == standard_gate(PIC_1_OFFSET as int));
    assert(t.gate(PIC_1_OFFSET + 1) == standard_gate(PIC_1_OFFSET + 1));
}

/// Law: while a line is still unacknowledged, no line of equal or lower
/// priority is delivered — omitting the end-of-interrupt acknowledgement
/// stalls them, machine state untouched.
pub proof fn lemma_no_delivery_without_acknowledgement(
    pics: InterruptControllerState,
    t: &TrapVectorTable,
    tss: &TaskState,
    st: MachineState,
    line: u8,
    serving: u8,
)
    requires
        pics.in_service == Some(serving),
        line_rank(line) >= line_rank(serving),
    ensures
        spec_deliver(pics, t, tss, st, line) == (pics, st, false),
{
}

} // verus!
