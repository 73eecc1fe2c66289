pub mod unsigned;
pub mod number_theory;
pub mod util;
pub mod residual;
pub mod expr;
pub mod sieve;
pub mod text;
pub mod parser;
pub mod compose;
pub mod iter;

pub use unsigned::UnsignedInt;
pub use residual::Residual;
pub use sieve::{Sieve, SieveNode};
pub use iter::{IterInterval, IterState, IterValue};
