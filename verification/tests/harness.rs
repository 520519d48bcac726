use rust_os::interrupts::InterruptIndex;
use rust_os::vga_buffer::{Color, ColorCode};
use rust_os::{exit_code_value, test_runner, QemuExitCode, Testable, TrivialCheck};

#[test]
fn exit_codes_are_the_port_sentinels() {
    assert_eq!(exit_code_value(QemuExitCode::Success), 0x10);
    assert_eq!(exit_code_value(QemuExitCode::Failed), 0x11);
}

#[test]
fn runner_reports_success_only_when_all_pass() {
    let all_pass = vec![
        TrivialCheck { left: 1, right: 1 },
        TrivialCheck { left: 7, right: 7 },
    ];
    assert_eq!(test_runner(&all_pass), QemuExitCode::Success);
    let one_fails = vec![
        TrivialCheck { left: 1, right: 1 },
        TrivialCheck { left: 7, right: 8 },
    ];
    assert_eq!(test_runner(&one_fails), QemuExitCode::Failed);
    let none: Vec<TrivialCheck> = Vec::new();
    assert_eq!(test_runner(&none), QemuExitCode::Success);
}

#[test]
fn testable_reports_its_outcome() {
    assert!(TrivialCheck { left: 3, right: 3 }.run());
    assert!(!TrivialCheck { left: 3, right: 4 }.run());
}

#[test]
fn interrupt_indexes_follow_the_remap_base() {
    assert_eq!(InterruptIndex::Timer.as_u8(), 32);
    assert_eq!(InterruptIndex::Keyboard.as_u8(), 33);
    assert_eq!(InterruptIndex::Timer.as_usize(), 32);
    assert_eq!(InterruptIndex::Keyboard.as_usize(), 33);
}

#[test]
fn colour_codes_pack_background_high_foreground_low() {
    assert_eq!(ColorCode::new(Color::LightGreen, Color::Black).0, 10);
    assert_eq!(ColorCode::new(Color::White, Color::Blue).0, 0x1f);
    assert_eq!(ColorCode::new(Color::Yellow, Color::DarkGray).0, 0x8e);
}
