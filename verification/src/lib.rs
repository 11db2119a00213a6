//! Reverse-mode adjoint algorithmic differentiation: a recording tape and the
//! handles that point into it.
//!
//! The tape and every handle are generic over the scalar type that they
//! carry. The arithmetic on that scalar (the chain rule's multiply-and-add,
//! and the test for a zero adjoint) is handed to the backward sweep by the
//! caller, so the sweep's bookkeeping is proved once for every scalar.


pub mod dual;
pub mod tape;

pub use dual::{Dual, Gradient};


