//! Reconciles package-version metadata across several independently hosted
//! package repositories that form a promotion pipeline, and flags packages
//! whose version in a newer stage is not actually newer than — or is missing
//! relative to — an older stage.
pub mod aggregate;
pub mod check;
pub mod client;
pub mod config;
pub mod error;
pub mod plan;
pub mod records;
pub mod stanza;
pub mod version;
