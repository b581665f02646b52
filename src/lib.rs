//! The Poseidon permutation over the BLS12-381 scalar field as a rank-1
//! constraint system: gadgets that bind field operations with as few
//! constraints as possible, and a round scheduler that drives them.
pub mod circuit;
pub mod cs;
pub mod field;
pub mod gadgets;
