//! Device drivers: the interrupt controller, the machine timer and the UART.
pub mod plic;
pub mod timer;
pub mod uart;
