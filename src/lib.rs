//! Heap-snapshot graph model with differential leak analysis, and converters
//! from profiler output to the SPAA stack-profile format.
pub mod text;
pub mod heap;
pub mod diff;
pub mod spaa;
pub mod dtrace;
