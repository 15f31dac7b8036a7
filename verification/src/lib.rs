//! Rebuilds Windows PE images that were captured from process memory.

pub mod error;
pub mod memory;
pub mod order;
pub mod pe;
pub mod text;
