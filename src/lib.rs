//! A byte-addressable RAM model for a zkVM, its trace records, and a model
//! of the constraint system that certifies the time order of a trace.
pub mod base;
pub mod circuit;
pub mod machine;
