//! Fixed-scale decimal big numbers on a verified big-integer core.
pub mod bits;
pub mod constants;
pub mod digits;
pub mod error;
pub mod eval;
pub mod fixed;
pub mod format;
pub mod functions;
pub mod laws;
pub mod limbs;
pub mod order;
pub mod parse;
pub mod relations;
pub mod rounding;
pub mod series;
pub mod signed;
pub mod steps;
pub mod text;
pub mod uint;

pub use crate::error::ParseBigFixedError;
pub use crate::fixed::BigFixed;
pub use crate::rounding::{MathContext, RoundingMode};
pub use crate::signed::{BigIntCore, Sign};
pub use crate::uint::BigUintCore;
