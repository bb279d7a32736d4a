//! Core call-by-push-value type-system machinery for the gandr language: the
//! shared syntax and type vocabulary, the semantic domain and normalizer, the
//! native primitives, sealing, stack typing, and the kernel bridge.

pub mod equality;
pub mod kernel_bridge;
pub mod mark;
pub mod nbe;
pub mod nominal;
pub mod outcome;
pub mod prim;
pub mod region;
pub mod seal;
pub mod stack;
pub mod store;
pub mod syntax;
pub mod text;
pub mod types;
