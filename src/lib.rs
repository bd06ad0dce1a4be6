pub mod label;
pub mod labels;
pub mod number;
pub mod text;

pub use label::{Label, LabelError, Unnormaliser};
pub use labels::Labels;
pub use number::Decimal;
