//! The instruction set shared by the assembler and the virtual machine.

use vstd::prelude::*;

verus! {

/// Index of one of the 16 registers (0 to 15).
pub type Register = u8;

/// An 8-bit immediate operand (0 to 255).
pub type Byte = u8;

/// One machine instruction. Every operand slot has a fixed kind: either a
/// register index or an immediate byte. The `SPush`/`SCopy`/`SPop`/`SRep`
/// family treats a pair of registers `(hi, lo)` as one 16-bit store address
/// `(value(hi) << 8) | value(lo)`.
#[derive(Clone, Copy, PartialEq, Eq, Structural, Debug)]
pub enum Instruction {
    /// Load the byte [arg1] into register [arg0].
    Load(Register, Byte),
    /// Add registers [arg1] and [arg2], wrapping modulo 256, into [arg0].
    Add(Register, Register, Register),
    /// Subtract register [arg2] from [arg1], wrapping modulo 256, into [arg0].
    Sub(Register, Register, Register),
    /// Multiply registers [arg1] and [arg2], wrapping modulo 256, into [arg0].
    Mul(Register, Register, Register),
    /// Divide register [arg1] by [arg2] into [arg0]; a zero divisor faults.
    Div(Register, Register, Register),
    /// Compare registers [arg1] and [arg2] into [arg0]:
    /// 0 if less, 1 if equal, 2 if greater.
    Cmp(Register, Register, Register),
    /// Allocate one byte of the store, write register [arg2] there, and put
    /// the address's high and low bytes into registers [arg0] and [arg1].
    SPush(Register, Register, Register),
    /// Read the store at the address in registers [arg0],[arg1] into [arg2].
    SCopy(Register, Register, Register),
    /// Read the store at the address in registers [arg0],[arg1] into [arg2]
    /// and return that byte to the free list.
    SPop(Register, Register, Register),
    /// Write register [arg2] to the store at the address in [arg0],[arg1].
    SRep(Register, Register, Register),
    /// Skip the next instruction if registers [arg0] and [arg1] differ.
    REq(Register, Register),
    /// Skip the next instruction if register [arg0] differs from byte [arg1].
    Eq(Register, Byte),
    /// Jump to the 16-bit instruction index [arg0],[arg1].
    Jump16(Byte, Byte),
    /// Jump to the 16-bit instruction index held in registers [arg0],[arg1].
    RJump16(Register, Register),
    /// Stop execution.
    Halt(),
}

impl Instruction {
    /// Every register operand names one of the 16 registers.
    pub open spec fn wf(self) -> bool {
        match self {
            Instruction::Load(r, _) => r < 16,
            Instruction::Add(d, a, b) => d < 16 && a < 16 && b < 16,
            Instruction::Sub(d, a, b) => d < 16 && a < 16 && b < 16,
            Instruction::Mul(d, a, b) => d < 16 && a < 16 && b < 16,
            Instruction::Div(d, a, b) => d < 16 && a < 16 && b < 16,
            Instruction::Cmp(d, a, b) => d < 16 && a < 16 && b < 16,
            Instruction::SPush(h, l, v) => h < 16 && l < 16 && v < 16,
            Instruction::SCopy(h, l, d) => h < 16 && l < 16 && d < 16,
            Instruction::SPop(h, l, d) => h < 16 && l < 16 && d < 16,
            Instruction::SRep(h, l, v) => h < 16 && l < 16 && v < 16,
            Instruction::REq(a, b) => a < 16 && b < 16,
            Instruction::Eq(r, _) => r < 16,
            Instruction::Jump16(_, _) => true,
            Instruction::RJump16(h, l) => h < 16 && l < 16,
            Instruction::Halt() => true,
        }
    }
}

/// The 16-bit value encoded by a high and a low byte: `(hi << 8) | lo`.
pub open spec fn pack16(hi: u8, lo: u8) -> int {
    hi * 256 + lo
}

/// The high byte of a 16-bit value: `(n >> 8) & 0xFF`.
pub open spec fn high8(n: int) -> u8 {
    (((n / 256) % 256) as u8)
}

/// The low byte of a 16-bit value: `n & 0xFF`.
pub open spec fn low8(n: int) -> u8 {
    ((n % 256) as u8)
}

/// Splitting a 16-bit value into its two bytes and packing them again is the
/// identity.
pub proof fn lemma_pack16_high8_low8(n: int)
    requires
        0 <= n < 65536,
    ensures
        pack16(high8(n), low8(n)) == n,
{
    assert(n / 256 < 256) by (nonlinear_arith)
        requires 0 <= n < 65536;
    assert((n / 256) % 256 == n / 256);
    assert(n / 256 * 256 + n % 256 == n) by (nonlinear_arith);
}

} // verus!
