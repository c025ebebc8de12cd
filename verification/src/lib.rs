//! Verified core of a VM-definition framework: instruction operand strings,
//! little-endian operand decoding, register/RAD bookkeeping, disassembly
//! formatting and emulator bookkeeping.
use vstd::prelude::*;

pub mod le_value;
pub mod text;
pub mod parser_arg;
pub mod hex_text;
pub mod formatter;
pub mod rad;
pub mod config;
pub mod disasm;
pub mod emulator;


verus! {

/// The sum of `a` and `b`, written in decimal.
pub fn sum_as_string(a: usize, b: usize) -> (s: String)
    requires
        a + b <= usize::MAX,
    ensures
        s@ == text::decimal((a + b) as nat),
{
    text::decimal_string(a + b)
}

} // verus!
