//! How each memory segment is addressed.
use crate::assembly::Register;
use crate::labels::{make_static_symbol, static_symbol};
use crate::utils::MemorySegment;
use vstd::prelude::*;

verus! {

/// The way in which the cell `index` of a segment is found.
#[derive(Debug, PartialEq, Eq)]
pub enum AddressingMode {
    /// The cell lies `index` cells above the address that a register holds.
    FixedBase(Register),
    /// The cell lies `index` cells above a fixed address.
    AbsoluteBase(u32),
    /// The cell is the one that a symbol stands for.
    Symbolic(String),
    /// There is no cell: the value is the index itself.
    Immediate(u32),
}

/// The mathematical model of an [`AddressingMode`].
pub enum Addressing {
    FixedBase(Register),
    AbsoluteBase(nat),
    Symbolic(Seq<char>),
    Immediate(nat),
}

impl View for AddressingMode {
    type V = Addressing;

    open spec fn view(&self) -> Addressing {
        match self {
            AddressingMode::FixedBase(register) => Addressing::FixedBase(*register),
            AddressingMode::AbsoluteBase(base) => Addressing::AbsoluteBase(*base as nat),
            AddressingMode::Symbolic(symbol) => Addressing::Symbolic(symbol@),
            AddressingMode::Immediate(value) => Addressing::Immediate(*value as nat),
        }
    }
}

/// The first of the eight cells of the `temp` segment: `temp i` is cell
/// `5 + i`, and the generator refuses an index above 7.
pub const TEMP_BASE: u32 = 5;

/// The first of the two cells of the `pointer` segment: the cells that
/// hold the bases of `this` and `that`. The generator refuses an index
/// above 1.
pub const POINTER_BASE: u32 = 3;

/// How cell `index` of `segment` is addressed in code of `module`.
pub open spec fn addressing(segment: MemorySegment, index: nat, module: Seq<char>) -> Addressing {
    match segment {
        MemorySegment::Local => Addressing::FixedBase(Register::Lcl),
        MemorySegment::Argument => Addressing::FixedBase(Register::Arg),
        MemorySegment::This => Addressing::FixedBase(Register::This),
        MemorySegment::That => Addressing::FixedBase(Register::That),
        MemorySegment::Pointer => Addressing::AbsoluteBase(POINTER_BASE as nat),
        MemorySegment::Temp => Addressing::AbsoluteBase(TEMP_BASE as nat),
        MemorySegment::Constant => Addressing::Immediate(index),
        MemorySegment::Static => Addressing::Symbolic(static_symbol(module, index)),
    }
}

/// Finds how cell `index` of `segment` is addressed in code of `module`.
pub fn resolve(segment: MemorySegment, index: u32, module: &str) -> (mode: AddressingMode)
    ensures
        mode@ == addressing(segment, index as nat, module@),
{
    match segment {
        MemorySegment::Local => AddressingMode::FixedBase(Register::Lcl),
        MemorySegment::Argument => AddressingMode::FixedBase(Register::Arg),
        MemorySegment::This => AddressingMode::FixedBase(Register::This),
        MemorySegment::That => AddressingMode::FixedBase(Register::That),
        MemorySegment::Pointer => AddressingMode::AbsoluteBase(POINTER_BASE),
        MemorySegment::Temp => AddressingMode::AbsoluteBase(TEMP_BASE),
        MemorySegment::Constant => AddressingMode::Immediate(index),
        MemorySegment::Static => AddressingMode::Symbolic(make_static_symbol(module, index)),
    }
}

} // verus!
