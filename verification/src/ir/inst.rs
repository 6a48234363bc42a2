use vstd::prelude::*;

verus! {

/// The name of a jump target.
#[derive(Debug, Clone, Copy, PartialEq, Eq, Structural)]
pub struct Label(pub usize);

/// One instruction of the tape machine.
#[derive(Debug, Clone, Copy, PartialEq, Eq, Structural)]
pub enum Inst {
    /// Add to the current cell, modulo 256.
    Add(i8),
    /// Move the data pointer.
    Move(i32),
    /// Read one byte into the current cell.
    Input,
    /// Write the current cell.
    Output,
    /// Continue at the label.
    Jump(Label),
    /// Continue at the label when the current cell is zero.
    JumpIfZero(Label),
    /// A jump target.
    Label(Label),
}

} // verus!
