//! Arithmetization of the op-stack table of a register machine: its trace,
//! padding, extension columns and constraint circuits, over a prime field.
use vstd::prelude::*;

pub mod constraint_circuit;
pub mod field;
pub mod op_stack_table;

verus! {

} // verus!
