//! A line-oriented formatter for Makefile-style build descriptions.
//!
//! The crate parses raw text into a structured document (`makefile::Makefile`),
//! applies idempotent fixes (`fixes`), and renders the document back to text.
//! The mathematical model of the format lives in `model`.

pub mod error;
pub mod fixes;
pub mod makefile;
pub mod model;
