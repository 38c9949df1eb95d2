//! Unique-sort-with-multiplicity hint for a bytecode virtual machine.
//!
//! Given an unsorted sequence of arbitrary-precision non-negative values, the
//! builder produces the sorted sequence of distinct values, their
//! multiplicities, and a position witness; the verifier and walker then
//! consume that witness one value and one occurrence at a time, emitting the
//! gaps an arithmetic builtin needs to prove the occurrence positions are
//! strictly increasing.

pub mod usort;
pub mod value;

pub use usort::{PositionWitness, UsortError, UsortOutput, UsortScope, WitnessEntry};
pub use usort::{
    usort_body, usort_enter_scope, verify_multiplicity_assert, verify_multiplicity_body,
    verify_usort,
};
pub use value::Value;
