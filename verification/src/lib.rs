//! Classification of 64-bit binary floating-point values by their shape:
//! whole numbers, pure fractions, mixed values, NaN and the infinities.
//!
//! Values are handled through their IEEE 754 bit patterns, and every finite
//! value is given an exact integer model, so that statements such as "the two
//! parts add up to the input" are proved without rounding.

pub mod binary64;
pub mod category;
pub mod power;

pub use crate::binary64::Binary64;
pub use crate::category::{classify, CatFloat, Category};
