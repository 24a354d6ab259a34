//! Semantic core of a pipeline-query compiler.
//!
//! The library resolves every name reference of a parsed pipeline to a
//! concrete declaration while tracking the set of columns visible at each
//! point of the pipeline (the frame), and defines the strictly typed
//! relational-query intermediate representation that the resolved pipeline
//! is lowered into.

pub mod context;
pub mod error;
pub mod frame;
pub mod ident;
pub mod module;
pub mod pl;
pub mod render;
pub mod rq;

pub use ident::Ident;
