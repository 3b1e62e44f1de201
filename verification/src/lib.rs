//! Sequential identifiers: a fixed prefix and category joined with a counter
//! that is written either in decimal or in letters (`A`, `B`, .. `Z`, `AA`, ..).

pub mod alpha;
pub mod decimal;
pub mod format;
pub mod identifier;
pub mod order;

pub use alpha::{num2alpha, MODULO};
pub use decimal::num2decimal;
pub use format::{is_name, split_fields};
pub use identifier::{GenerateError, Identifier, Strategy};
