//! Root tracing for a garbage-collected heap, with a conformance harness.
//!
//! The heap allocator itself is an external collaborator, reached only
//! through the [`heap::GarbageCollectingHeap`] trait; this crate supplies
//! the tracers that tell it which blocks are still reachable, and the
//! harness operations that drive realistic allocate/store/load/deallocate
//! sequences against it.

pub mod countdown;
pub mod heap;
pub mod pointer;
pub mod tracer;
