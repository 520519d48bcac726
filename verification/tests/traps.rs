use rust_os::gdt;
use rust_os::init;
use rust_os::interrupts::{
    breakpoint_handler, deliver_line, double_fault_handler, handler_return,
    keyboard_interrupt_handler, page_fault_handler, test_breakpoint_exception,
    timer_interrupt_handler, trigger_trap, DecodedInput, ExecState, HandlerKind, KeyboardDecoder,
    MachineState, TrapGate,
};

const STACK_BASE: u64 = 0x7000_0000;
const BOOT_IP: u64 = 0x20_1000;
const BOOT_SP: u64 = 0x8000;
const STACK_FLOOR: u64 = 0x4000;

#[test]
fn trivial_assertion() {
    assert_eq!(1, 1);
}

#[test]
fn segmentation_reserves_isolated_stack() {
    let seg = gdt::init(STACK_BASE);
    assert_eq!(seg.selectors.code_selector, 1);
    assert_eq!(seg.selectors.tss_selector, 2);
    assert_eq!(
        seg.tss.interrupt_stack_table[gdt::DOUBLE_FAULT_IST_INDEX as usize],
        STACK_BASE + gdt::DOUBLE_FAULT_STACK_SIZE
    );
    for slot in 1..gdt::IST_SLOTS {
        assert_eq!(seg.tss.interrupt_stack_table[slot], 0);
    }
}

#[test]
fn dispatch_table_standard_bindings() {
    let k = init(STACK_BASE, BOOT_IP, BOOT_SP, STACK_FLOOR);
    assert_eq!(
        k.traps.entries[3],
        Some(TrapGate { handler: HandlerKind::Breakpoint, stack_slot: None })
    );
    assert_eq!(
        k.traps.entries[8],
        Some(TrapGate { handler: HandlerKind::DoubleFault, stack_slot: Some(0) })
    );
    assert_eq!(
        k.traps.entries[14],
        Some(TrapGate { handler: HandlerKind::PageFault, stack_slot: None })
    );
    assert_eq!(
        k.traps.entries[32],
        Some(TrapGate { handler: HandlerKind::Timer, stack_slot: None })
    );
    assert_eq!(
        k.traps.entries[33],
        Some(TrapGate { handler: HandlerKind::Keyboard, stack_slot: None })
    );
    assert_eq!(k.traps.entries[0], None);
    assert_eq!(k.traps.entries[100], None);
    assert!(k.traps.loaded);
}

#[test]
fn breakpoint_resumes_next_instruction() {
    let mut k = init(STACK_BASE, BOOT_IP, BOOT_SP, STACK_FLOOR);
    let reported = test_breakpoint_exception(&k.traps, &k.seg.tss, &mut k.state);
    assert_eq!(reported.ip, BOOT_IP + 1);
    assert_eq!(reported.sp, BOOT_SP);
    assert_eq!(k.state.mode, ExecState::Running { ip: BOOT_IP + 1, sp: BOOT_SP });
}

#[test]
fn breakpoint_no_stack_growth_over_many_triggers() {
    let mut k = init(STACK_BASE, BOOT_IP, BOOT_SP, STACK_FLOOR);
    for n in 0..1000u64 {
        test_breakpoint_exception(&k.traps, &k.seg.tss, &mut k.state);
        assert_eq!(k.state.mode, ExecState::Running { ip: BOOT_IP + n + 1, sp: BOOT_SP });
    }
}

#[test]
fn double_fault_runs_on_isolated_stack() {
    let k = init(STACK_BASE, BOOT_IP, BOOT_SP, STACK_FLOOR);
    let mut st = MachineState::boot(BOOT_IP, BOOT_SP, STACK_FLOOR);
    trigger_trap(&k.traps, &k.seg.tss, &mut st, 8);
    match st.mode {
        ExecState::InHandler { kind, sp, .. } => {
            assert_eq!(kind, HandlerKind::DoubleFault);
            assert!(STACK_BASE <= sp);
            assert!(sp < STACK_BASE + gdt::DOUBLE_FAULT_STACK_SIZE);
        },
        other => panic!("expected a handler, got {:?}", other),
    }
}

#[test]
fn stack_overflow_reaches_double_fault_handler() {
    let k = init(STACK_BASE, BOOT_IP, BOOT_SP, STACK_FLOOR);
    // the normal stack is exhausted: no room for even one trap frame
    let mut st = MachineState::boot(BOOT_IP, STACK_FLOOR + 8, STACK_FLOOR);
    // the overflowing access raises the page fault; its frame cannot be
    // pushed, so it escalates to the double fault on the isolated stack
    trigger_trap(&k.traps, &k.seg.tss, &mut st, 14);
    match st.mode {
        ExecState::InHandler { kind, sp, .. } => {
            assert_eq!(kind, HandlerKind::DoubleFault);
            assert!(STACK_BASE <= sp && sp < STACK_BASE + gdt::DOUBLE_FAULT_STACK_SIZE);
        },
        other => panic!("expected the double-fault handler, got {:?}", other),
    }
    double_fault_handler(&mut st);
    assert_eq!(st.mode, ExecState::Halted);
    assert_eq!(st.diag, Some(0x10));
}

#[test]
fn page_fault_reports_and_halts() {
    let k = init(STACK_BASE, BOOT_IP, BOOT_SP, STACK_FLOOR);
    let mut st = k.state;
    trigger_trap(&k.traps, &k.seg.tss, &mut st, 14);
    assert!(matches!(st.mode, ExecState::InHandler { kind: HandlerKind::PageFault, .. }));
    page_fault_handler(&mut st, 0xdead_beef, 0b10);
    assert_eq!(st.mode, ExecState::Halted);
    assert_eq!(st.last_fault, Some((0xdead_beef, 0b10)));
}

#[test]
fn unbound_vector_resets() {
    let k = init(STACK_BASE, BOOT_IP, BOOT_SP, STACK_FLOOR);
    let mut st = k.state;
    trigger_trap(&k.traps, &k.seg.tss, &mut st, 77);
    assert_eq!(st.mode, ExecState::Reset);
}

#[test]
fn timer_line_lands_on_vector_32() {
    let mut k = init(STACK_BASE, BOOT_IP, BOOT_SP, STACK_FLOOR);
    let delivered = deliver_line(&mut k.pics, &k.traps, &k.seg.tss, &mut k.state, 0);
    assert!(delivered);
    assert_eq!(k.pics.in_service, Some(0));
    assert!(matches!(k.state.mode, ExecState::InHandler { kind: HandlerKind::Timer, .. }));
    timer_interrupt_handler(&mut k.state, &mut k.pics);
    assert_eq!(k.state.ticks, 1);
    assert_eq!(k.pics.in_service, None);
    assert_eq!(k.state.mode, ExecState::Running { ip: BOOT_IP, sp: BOOT_SP });
}

#[test]
fn keyboard_line_lands_on_vector_33() {
    let mut k = init(STACK_BASE, BOOT_IP, BOOT_SP, STACK_FLOOR);
    let delivered = deliver_line(&mut k.pics, &k.traps, &k.seg.tss, &mut k.state, 1);
    assert!(delivered);
    assert_eq!(k.pics.in_service, Some(1));
    assert!(matches!(k.state.mode, ExecState::InHandler { kind: HandlerKind::Keyboard, .. }));
    let mut decoder = KeyboardDecoder::new();
    // scancode set 1: 0x1E is the press of the key that yields 'a'
    let key = keyboard_interrupt_handler(&mut decoder, &mut k.state, &mut k.pics, 0x1e);
    assert_eq!(key, Some(DecodedInput::Unicode('a')));
    assert_eq!(k.pics.in_service, None);
    assert_eq!(k.state.mode, ExecState::Running { ip: BOOT_IP, sp: BOOT_SP });
}

#[test]
fn omitted_acknowledgement_stalls_further_interrupts() {
    let mut k = init(STACK_BASE, BOOT_IP, BOOT_SP, STACK_FLOOR);
    assert!(deliver_line(&mut k.pics, &k.traps, &k.seg.tss, &mut k.state, 0));
    // the test double returns without acknowledging its line
    handler_return(&mut k.state);
    assert_eq!(k.state.mode, ExecState::Running { ip: BOOT_IP, sp: BOOT_SP });
    assert_eq!(k.pics.in_service, Some(0));
    // neither the same line nor a lower-priority one is delivered any more
    assert!(!deliver_line(&mut k.pics, &k.traps, &k.seg.tss, &mut k.state, 0));
    assert!(!deliver_line(&mut k.pics, &k.traps, &k.seg.tss, &mut k.state, 1));
    assert_eq!(k.state.mode, ExecState::Running { ip: BOOT_IP, sp: BOOT_SP });
}

#[test]
fn acknowledgement_for_wrong_controller_changes_nothing() {
    let mut k = init(STACK_BASE, BOOT_IP, BOOT_SP, STACK_FLOOR);
    // put a secondary-controller line in service
    assert!(deliver_line(&mut k.pics, &k.traps, &k.seg.tss, &mut k.state, 9));
    assert_eq!(k.pics.in_service, Some(9));
    // a primary-controller vector does not retire a secondary line
    k.pics.notify_end_of_interrupt(32);
    assert_eq!(k.pics.in_service, Some(9));
    // the secondary controller's own vector does
    k.pics.notify_end_of_interrupt(41);
    assert_eq!(k.pics.in_service, None);
}

#[test]
fn breakpoint_handler_reports_saved_context() {
    let k = init(STACK_BASE, BOOT_IP, BOOT_SP, STACK_FLOOR);
    let mut st = k.state;
    trigger_trap(&k.traps, &k.seg.tss, &mut st, 3);
    let reported = breakpoint_handler(&mut st);
    assert_eq!(reported.ip, BOOT_IP + 1);
    assert_eq!(reported.sp, BOOT_SP);
    assert_eq!(st.mode, ExecState::Running { ip: BOOT_IP + 1, sp: BOOT_SP });
}

#[test]
fn scancode_decoder_tracks_shift_state() {
    let mut decoder = KeyboardDecoder::new();
    // press of the left shift key yields no character
    assert_eq!(decoder.decode_scancode(0x2a), None);
    // 'a' pressed while shift is held decodes to 'A'
    assert_eq!(decoder.decode_scancode(0x1e), Some(DecodedInput::Unicode('A')));
    // releases: shift up is 0x2a | 0x80
    assert_eq!(decoder.decode_scancode(0x9e), None);
    assert_eq!(decoder.decode_scancode(0xaa), None);
    assert_eq!(decoder.decode_scancode(0x1e), Some(DecodedInput::Unicode('a')));
}
