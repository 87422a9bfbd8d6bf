//! Software arithmetic and block-memory routines for targets that lack them.
//!
//! The crate has two independent engines. [`float`] converts between integers
//! and IEEE-754 binary floating-point bit patterns with correct rounding, and
//! [`mem`] copies and fills blocks of a word-addressed memory. Both build on
//! the width descriptors of [`integer`].

pub mod float;
pub mod integer;
pub mod mem;
