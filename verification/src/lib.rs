use vstd::prelude::*;

pub mod digit;
pub mod model;
pub mod text;
pub mod ternary;
pub mod operations;
pub mod methods;
pub mod hept;
pub mod ordering;
pub mod unbalanced;
pub mod tryte;
pub mod packed;
pub mod bct;
pub mod ter40;
pub mod jones;
pub mod chunk;
pub mod terscii;
pub mod matrix;
pub mod getrandom;
pub mod conversions;

pub use crate::digit::Digit;
pub use crate::ternary::Ternary;
pub use crate::unbalanced::{ParseTernaryError, ter, trit};
pub use crate::tryte::{Tryte, tryte};
pub use crate::bct::{BctTer32, IlBctTer32};
pub use crate::ter40::{IlTer40, Ter40};
pub use crate::jones::{BTer27, BTer9, UTer27, UTer9};
pub use crate::chunk::{DataTernary, TritsChunk, dter};
