//! The 16550 UART: its register addresses, the line status bits, and the ANSI escape
//! sequences that set the console colour.
use vstd::prelude::*;

verus! {

/// Base address of the UART.
pub const UART_BASE: usize = 0x1000_0000;

/// Transmit holding register: a byte written here is sent.
pub const THR: usize = 0;

/// Receive buffer register: a received byte is read here.
pub const RBR: usize = 0;

/// Line status register.
pub const LSR: usize = 5;

/// Line status bit: the transmit holding register is empty.
pub const LSR_THRE: u8 = 0x20;

/// Line status bit: a received byte is ready.
pub const LSR_DR: u8 = 0x01;

pub const COLOR_BLACK: u8 = 30;
pub const COLOR_RED: u8 = 31;
pub const COLOR_GREEN: u8 = 32;
pub const COLOR_YELLOW: u8 = 33;
pub const COLOR_BLUE: u8 = 34;
pub const COLOR_MAGENTA: u8 = 35;
pub const COLOR_CYAN: u8 = 36;
pub const COLOR_WHITE: u8 = 37;
pub const COLOR_BRIGHT_RED: u8 = 91;
pub const COLOR_BRIGHT_GREEN: u8 = 92;
pub const COLOR_BRIGHT_YELLOW: u8 = 93;
pub const COLOR_BRIGHT_BLUE: u8 = 94;
pub const COLOR_BRIGHT_MAGENTA: u8 = 95;
pub const COLOR_BRIGHT_CYAN: u8 = 96;
pub const COLOR_BRIGHT_WHITE: u8 = 97;

/// The escape sequence that selects graphic rendition `code`: ESC, `[`, the code, `m`.
/// Codes from 100 up are written as `1` followed by the byte `'0' + (code - 100)`,
/// codes below 100 as two decimal digits.
pub open spec fn ansi_sequence(code: u8) -> Seq<u8> {
    let body = if code >= 100 {
        seq![0x31u8, (0x30 + (code - 100)) as u8]
    } else {
        seq![(0x30 + code / 10) as u8, (0x30 + code % 10) as u8]
    };
    seq![0x1bu8, 0x5bu8] + body + seq![0x6du8]
}

/// The escape sequence of a code below 100 is ESC, `[`, the code's two decimal
/// digits, tens first, and `m`.
pub proof fn lemma_ansi_two_digits(code: u8)
    requires
        code < 100,
    ensures
        ansi_sequence(code).len() == 5,
        ansi_sequence(code)[0] == 0x1b,
        ansi_sequence(code)[1] == 0x5b,
        ansi_sequence(code)[4] == 0x6d,
        0x30 <= ansi_sequence(code)[2] <= 0x39,
        0x30 <= ansi_sequence(code)[3] <= 0x39,
        (ansi_sequence(code)[2] - 0x30) * 10 + (ansi_sequence(code)[3] - 0x30) == code,
{
}

/// A UART at a base address.
pub struct Uart {
    base: usize,
}

impl Uart {
    pub closed spec fn base_addr(self) -> int {
        self.base as int
    }

    /// The UART at `base`.
    pub fn new(base: usize) -> (uart: Self)
        ensures
            uart.base_addr() == base,
    {
        Uart { base }
    }

    /// The base address.
    pub fn base(&self) -> (base: usize)
        ensures
            base == self.base_addr(),
    {
        self.base
    }

    /// Address of the register at `offset`.
    pub fn reg(&self, offset: usize) -> (addr: usize)
        requires
            self.base_addr() + offset <= usize::MAX,
        ensures
            addr == self.base_addr() + offset,
    {
        self.base + offset
    }

    /// The bytes that select graphic rendition `code`.
    fn write_ansi_code(&self, code: u8) -> (bytes: Vec<u8>)
        ensures
            bytes@ == ansi_sequence(code),
    {
        let mut bytes: Vec<u8> = Vec::new();
        bytes.push(0x1b);
        bytes.push(0x5b);
        if code >= 100 {
            bytes.push(0x31);
            bytes.push(0x30 + (code - 100));
        } else {
            bytes.push(0x30 + code / 10);
            bytes.push(0x30 + code % 10);
        }
        bytes.push(0x6d);
        proof {
            assert(bytes@ =~= ansi_sequence(code));
        }
        bytes
    }

    /// The bytes that switch the console to `color`.
    pub fn set_color(&self, color: u8) -> (bytes: Vec<u8>)
        ensures
            bytes@ == ansi_sequence(color),
    {
        self.write_ansi_code(color)
    }

    /// The bytes that restore the console's default rendition.
    pub fn reset_color(&self) -> (bytes: Vec<u8>)
        ensures
            bytes@ == ansi_sequence(0),
    {
        self.write_ansi_code(0)
    }
}

/// Whether a line status value says the transmitter can take a byte.
pub fn can_transmit(lsr: u8) -> (ready: bool)
    ensures
        ready == (lsr & LSR_THRE != 0),
{
    lsr & LSR_THRE != 0
}

/// Whether a line status value says a received byte is ready.
pub fn has_data(lsr: u8) -> (ready: bool)
    ensures
        ready == (lsr & LSR_DR != 0),
{
    lsr & LSR_DR != 0
}

/// The console UART and whether it has been brought up.
pub struct Console {
    uart: Uart,
    initialized: bool,
}

impl Console {
    pub closed spec fn is_up(self) -> bool {
        self.initialized
    }

    pub closed spec fn uart(self) -> Uart {
        self.uart
    }

    /// The console UART at its fixed base address, not brought up yet.
    pub fn new() -> (console: Self)
        ensures
            !console.is_up(),
            console.uart().base_addr() == UART_BASE,
    {
        Console { uart: Uart::new(UART_BASE), initialized: false }
    }
}

/// Brings the console UART up.
pub fn init_uart(console: &mut Console)
    ensures
        final(console).is_up(),
        final(console).uart() == old(console).uart(),
{
    console.initialized = true;
}

/// The console UART once it is up.
pub fn get_uart(console: &Console) -> (uart: Option<&Uart>)
    ensures
        match uart {
            Some(u) => console.is_up() && *u == console.uart(),
            None => !console.is_up(),
        },
{
    if console.initialized {
        Some(&console.uart)
    } else {
        None
    }
}

} // verus!
