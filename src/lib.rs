pub mod bitarea;
pub mod bits;
pub mod layout;
pub mod properties;
pub mod sample;
pub mod text;

pub use crate::bitarea::Bitarea;
