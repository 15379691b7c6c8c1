//! Binding verification for GPU shader pipelines.
//!
//! A host program declares shader stages as ordered lists of named, qualified
//! parameters.  Before a stage may be dispatched or drawn, every parameter it
//! requires must have been supplied with a value of the declared type; the
//! buffer that backs each value carries usage flags derived from the
//! parameter's qualifiers.  This crate verifies that discipline: the binding
//! context tracks which names are still required, the bind operation
//! type-checks and serializes candidate values, the execution gate refuses to
//! run with missing bindings, and the pipe-compatibility check validates that
//! one stage's outputs cover the next stage's inputs.
//!
//! Talking to the actual GPU backend (allocating device buffers, compiling
//! shader bodies, submitting work) is left to the embedding program; the
//! library hands it serialized bytes and usage classifications.

pub mod bind;
pub mod bytes;
pub mod context;
pub mod descriptor;
pub mod error;
pub mod model;
