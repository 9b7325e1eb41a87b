use lib::drivers::plic::{claim_register, enable_bit, enable_register, enable_word, priority_register, threshold_register};
use lib::drivers::timer::{
    consume_heartbeat, handle_timer_interrupt, heartbeat_pending, init_timer, next_deadline, ticks, uptime,
    wait_for_ticks, TimerState,
};
use lib::drivers::uart::{can_transmit, get_uart, has_data, init_uart, Console, Uart, COLOR_BRIGHT_RED, COLOR_RED};

#[test]
fn plic_register_addresses() {
    assert_eq!(threshold_register(0), 0x0C20_0000);
    assert_eq!(threshold_register(1), 0x0C20_1000);
    assert_eq!(priority_register(10), 0x0C00_0028);
    assert_eq!(enable_register(0, 10), 0x0C00_2000);
    assert_eq!(enable_register(1, 40), 0x0C00_2104);
    assert_eq!(claim_register(0), 0x0C20_0004);
}

#[test]
fn plic_enable_bits() {
    assert_eq!(enable_bit(10), 1 << 10);
    assert_eq!(enable_bit(33), 2);
    assert_eq!(enable_word(0b1, 10), 0b100_0000_0001);
}

#[test]
fn timer_heartbeat_every_hundred_ticks() {
    let mut t = TimerState::new();
    init_timer(&mut t);
    for _ in 0..99 {
        handle_timer_interrupt(&mut t);
    }
    assert_eq!(ticks(&t), 99);
    assert!(!heartbeat_pending(&t));
    assert_eq!(uptime(&t), 0);
    handle_timer_interrupt(&mut t);
    assert!(heartbeat_pending(&t));
    assert_eq!(uptime(&t), 1);
    assert!(consume_heartbeat(&mut t));
    assert!(!consume_heartbeat(&mut t));
    assert_eq!(ticks(&t), 100);
}

#[test]
fn timer_deadline_wraps() {
    assert_eq!(next_deadline(5), 100_005);
    assert_eq!(next_deadline(u64::MAX), 99_999);
}

#[test]
fn tick_wait_targets() {
    let w = wait_for_ticks(10, 5);
    assert_eq!(w.target, 15);
    assert!(!w.is_done(14));
    assert!(w.is_done(15));
    assert_eq!(wait_for_ticks(u64::MAX, 2).target, 1);
}

#[test]
fn legacy_timer() {
    assert_eq!(lib::timer::init_timer(1), 100_001);
    assert_eq!(lib::timer::handle_timer_interrupt(u64::MAX), 0);
}

#[test]
fn uart_color_sequences() {
    let u = Uart::new(0x1000_0000);
    assert_eq!(u.set_color(COLOR_RED), b"\x1b[31m".to_vec());
    assert_eq!(u.set_color(COLOR_BRIGHT_RED), b"\x1b[91m".to_vec());
    // Codes from 100 up are written as `1` and one more byte, `'0' + (code - 100)`.
    assert_eq!(u.set_color(107), b"\x1b[17m".to_vec());
    assert_eq!(u.reset_color(), b"\x1b[00m".to_vec());
    assert_eq!(u.reg(5), 0x1000_0005);
}

#[test]
fn uart_line_status_bits() {
    assert!(can_transmit(0x60));
    assert!(!can_transmit(0x01));
    assert!(has_data(0x61));
    assert!(!has_data(0x60));
}

#[test]
fn console_is_available_once_up() {
    let mut c = Console::new();
    assert!(get_uart(&c).is_none());
    init_uart(&mut c);
    assert_eq!(get_uart(&c).map(|u| u.base()), Some(0x1000_0000));
}
