//! Multiplication of arbitrary-precision natural numbers by convolution of
//! their decimal digit sequences.
//!
//! The library holds the exact, integer side of a transform-based multiplier:
//! turning an operand into its digit coefficients, choosing and applying the
//! power-of-two transform length, and resolving a sequence of integer
//! coefficients back into a number by carry propagation. The transform itself
//! works on floating-point complex numbers and is supplied by the caller; the
//! library states what it has to deliver (the cyclic convolution of the padded
//! operands) and proves that, given exactly that, the resolved number is the
//! product.

pub mod sizing;
pub mod bignum;
pub mod digits;
pub mod resolve;
pub mod convolution;
pub mod product;
