//! Classical-cipher toolkit over a fixed alphabet of 26 symbols: text buffers,
//! cipher transforms, statistical scoring and key-space search.

pub mod buffer;
pub mod ciphers;
pub mod keyvec;
pub mod meta;
pub mod random;
pub mod score;
pub mod stats;
pub mod symbol;
pub mod text;

pub use self::buffer::{Buffer, CharStream, PartialBuffer};
pub use self::symbol::Char;
