use kernel::arch::percpu::PercpuData;
use kernel::debug::log::Logger;
use kernel::debug::qemu::{exit_value, EXIT_PORT};
use kernel::debug::serial::{Serial, LINE_STATUS_PORT};

#[test]
fn log_appends_a_newline() {
    assert_eq!(Logger::log("boot ok"), b"boot ok\n".to_vec());
    assert_eq!(Logger::log(""), vec![b'\n']);
}

#[test]
fn log_keeps_utf8_bytes() {
    let line = Logger::log("≺SCHED≻ Started");
    assert_eq!(&line[..line.len() - 1], "≺SCHED≻ Started".as_bytes());
    assert_eq!(line.last(), Some(&b'\n'));
}

#[test]
fn percpu_starts_zeroed() {
    let d = PercpuData::new();
    assert_eq!(d, PercpuData { user_rsp: 0, kernel_rsp: 0 });
}

#[test]
fn uart_setup_sequence() {
    let w = Serial::init();
    assert_eq!(
        w,
        vec![(0x3F9, 0x00), (0x3FB, 0x80), (0x3F8, 0x03), (0x3F9, 0x00), (0x3FB, 0x03), (0x3FA, 0xC7), (0x3FC, 0x0B)]
    );
    assert_eq!(Logger::init(), w);
}

#[test]
fn uart_ready_on_empty_holding_register() {
    assert_eq!(LINE_STATUS_PORT, 0x3FD);
    assert!(Serial::is_ready(0x20));
    assert!(Serial::is_ready(0x60));
    assert!(!Serial::is_ready(0x1F));
    assert!(!Serial::is_ready(0));
}

#[test]
fn qemu_exit_values() {
    assert_eq!(EXIT_PORT, 0xf4);
    assert_eq!(exit_value(true), 0x10);
    assert_eq!(exit_value(false), 0x11);
}
