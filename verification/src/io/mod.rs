//! Input and output formats.

pub mod stream;
pub mod xyz;
pub mod heightmap;
