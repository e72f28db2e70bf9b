//! Model building blocks.

pub mod layers;
