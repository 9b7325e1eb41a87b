//! The platform-level interrupt controller: the addresses of its registers and the
//! values written to them.
use vstd::prelude::*;

verus! {

/// Base address of the interrupt controller.
pub const PLIC_BASE: usize = 0x0C00_0000;

/// Start of the interrupt priority registers, one word per interrupt.
pub const PLIC_PRIORITY: usize = PLIC_BASE + 0x0;

/// Start of the pending bits.
pub const PLIC_PENDING: usize = PLIC_BASE + 0x1000;

/// Start of the enable bits, one block of 0x100 bytes per hart.
pub const PLIC_ENABLE: usize = PLIC_BASE + 0x2000;

/// Start of the per-hart contexts (threshold, then claim/complete), 0x1000 bytes each.
pub const PLIC_CONTEXT_BASE: usize = PLIC_BASE + 0x200000;

/// Address of the priority threshold register of a hart.
pub fn threshold_register(hartid: usize) -> (addr: usize)
    requires
        PLIC_CONTEXT_BASE + hartid * 0x1000 <= usize::MAX,
    ensures
        addr == PLIC_CONTEXT_BASE + hartid * 0x1000,
{
    PLIC_CONTEXT_BASE + hartid * 0x1000
}

/// Address of the priority register of an interrupt.
pub fn priority_register(irq: usize) -> (addr: usize)
    requires
        PLIC_PRIORITY + irq * 4 <= usize::MAX,
    ensures
        addr == PLIC_PRIORITY + irq * 4,
{
    PLIC_PRIORITY + irq * 4
}

/// Address of the enable word that holds the bit of an interrupt for a hart.
pub fn enable_register(hartid: usize, irq: usize) -> (addr: usize)
    requires
        PLIC_ENABLE + hartid * 0x100 + (irq / 32) * 4 <= usize::MAX,
    ensures
        addr == PLIC_ENABLE + hartid * 0x100 + (irq / 32) * 4,
{
    let byte_off = (irq / 32) * 4;
    PLIC_ENABLE + hartid * 0x100 + byte_off
}

/// The bit of an interrupt within its enable word.
pub fn enable_bit(irq: usize) -> (bit: u32)
    ensures
        bit == 1u32 << ((irq % 32) as u32),
        bit == vstd::arithmetic::power2::pow2((irq % 32) as nat),
{
    let shift = (irq % 32) as u32;
    proof {
        vstd::arithmetic::power2::lemma_pow2_strictly_increases(shift as nat, 32);
        vstd::arithmetic::power2::lemma2_to64();
        assert(1 * vstd::arithmetic::power2::pow2(shift as nat) <= u32::MAX);
        vstd::bits::lemma_u32_shl_is_mul(1, shift);
    }
    1u32 << shift
}

/// The enable word with the bit of an interrupt set and every other bit kept.
pub fn enable_word(current: u32, irq: usize) -> (word: u32)
    ensures
        word == current | (1u32 << ((irq % 32) as u32)),
{
    current | enable_bit(irq)
}

/// Address of the claim/complete register of a hart.
pub fn claim_register(hartid: usize) -> (addr: usize)
    requires
        PLIC_CONTEXT_BASE + hartid * 0x1000 + 0x4 <= usize::MAX,
    ensures
        addr == PLIC_CONTEXT_BASE + hartid * 0x1000 + 0x4,
{
    PLIC_CONTEXT_BASE + hartid * 0x1000 + 0x4
}

} // verus!
