mod buffer;
pub mod common;
pub mod d2s;
mod f2s;
mod mulshift128;
pub mod pretty;
pub mod shortest;

pub use buffer::{Buffer, Float, FloatToFixed, Sealed};
pub use common::{decimal_length9, log10_pow2, log10_pow5, pow5bits};
pub use d2s::d2s_buffered_n;
pub use f2s::f2s_buffered_n;
pub use mulshift128::{shiftright128, umul128};
