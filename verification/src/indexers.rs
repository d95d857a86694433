//! Finding values in text.

pub mod amount;
pub mod amount_laws;
