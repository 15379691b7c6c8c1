//! The error taxonomy: local, synchronous contract violations, caught before
//! any GPU work would be issued.

use vstd::prelude::*;

use crate::model::{GLSLType, ValueKind};

verus! {

/// Everything that can go wrong while declaring, binding, gating or chaining
/// shader stages.
#[derive(Debug)]
pub enum PipelineError {
    /// Two parameters in one descriptor share a name; raised at
    /// descriptor-construction time.
    DuplicateParameterName { name: String },
    /// A bind was attempted for a name present in neither binding table.
    UnknownBindingName { name: String },
    /// The candidate value's serialized shape does not match the slot's
    /// declared type.
    TypeMismatch { expected: GLSLType, got: ValueKind },
    /// Execution was attempted while the required set is non-empty; `names`
    /// reports the inputs that were forgotten.
    MissingBindings { names: Vec<String> },
    /// An output slot was read before any bind.
    UnassignedOutput { name: String },
    /// The bound value's element count disagrees with the length of an
    /// already-bound `Loop` parameter.
    LoopLengthMismatch { expected_length: u64, got_length: u64 },
    /// Pipe compatibility failed: `missing` lists the consumer's required
    /// names that the producer does not produce.
    IncompatibleStages { missing: Vec<String> },
}

} // verus!
