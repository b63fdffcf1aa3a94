//! Exchange-rate derivation and account balance aggregation over decimal amounts.

pub mod accounts;
pub mod decimal;
pub mod text;
pub mod xrate;
pub mod xrate_laws;
