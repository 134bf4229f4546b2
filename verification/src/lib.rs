//! The deciding core of an offline path tracer.
//!
//! Every real quantity is held as the binary64 encoding of its value. The
//! library never rounds: it compares, negates, selects and orders, all of
//! which are exact on encodings, and leaves the arithmetic between those
//! decisions to its caller.

pub mod hittable;
pub mod materials;
pub mod math;
pub mod output;
pub mod ray;
pub mod render;
pub mod scalar;
pub mod vec;
