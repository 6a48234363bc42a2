//! The intermediate representation: instructions, lowering from the syntax
//! tree, and the peephole optimiser.
pub mod inst;
pub mod ir;
pub mod labels;
pub mod lowering;
pub mod optimizers;
pub mod semantics;
pub mod structured;
