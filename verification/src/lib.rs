//! The heap and binding core of a small Scheme interpreter.
//!
//! The crate provides:
//!
//! * an arena-based memory manager for the four kinds of heap objects a
//!   Scheme program allocates (cons cells, strings, activations, and
//!   procedures),
//! * a precise mark-and-sweep garbage collector together with the explicit
//!   stack-rooting protocol that keeps handles alive across allocations,
//! * the compile-time `Environment` that resolves names to `(frame, slot)`
//!   coordinates, and the runtime `Activation` frames those coordinates are
//!   executed against,
//! * a symbol interner and a source-location registry.
//!
//! The reader, the evaluator and the primitive procedures are external
//! collaborators: they drive this crate through the public allocation,
//! environment and symbol interfaces.

pub mod environment;
pub mod heap;
pub mod value;
