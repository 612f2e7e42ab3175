//! Estimates the API-equivalent cost of a coding assistant's usage from its
//! local session transcripts: the pure, verified core (parsing decisions, rate lookup,
//! de-duplication and the one-pass breakdown fold, incremental scanning
//! decisions and the dashboard's view state).

pub mod record;
pub mod analysis;
pub mod dashboard;
pub mod format;
pub mod order;
pub mod parse;
pub mod prices;
pub mod pricing;
pub mod scan;
pub mod strmap;
pub mod text;
