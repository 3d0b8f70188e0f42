//! A toolchain for a small 8-bit register machine: a line-oriented assembler
//! that turns mnemonic source text into an instruction stream, and a virtual
//! machine that executes that stream against 16 registers and a 64 KiB
//! working store managed by a free-space list.

pub mod assembler;
pub mod instruction;
pub mod machine;
