//! Year-over-year analysis of the risk factors that public companies disclose in
//! their annual filings.

pub mod model;
pub mod text;
pub mod drift;
pub mod language;
pub mod invariants;
pub mod hf;
pub mod sec;
pub mod analysis;
