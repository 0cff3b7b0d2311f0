//! A verified model of an embedder's boundary layer towards a native browser
//! engine: reference-counted capability tables with instrumented control
//! blocks, a composite client handler with optional sub-handlers, and the
//! engine's dynamically typed value tree with its aliasing, ownership and
//! validity rules.

pub mod client;
pub mod refcounted;
pub mod tree;
pub mod values;
