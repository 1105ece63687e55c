//! Joins a gene expression matrix with genomic coordinates taken from a GTF
//! annotation, filters the rows by relevance and orders them by position.
//!
//! The stages run one after the other: [`annotation`] builds the index from
//! gene identifier to coordinates, [`matrix`] joins every matrix line with
//! it, [`filter`] discards rows by tier, [`sorter`] puts the rest in genomic
//! order and [`emitter`] renders the table. [`engine`] runs them all. Text is
//! held as vectors of characters throughout.

pub mod text;
pub mod number;
pub mod chromosome;
pub mod annotation;
pub mod matrix;
pub mod filter;
pub mod sorter;
pub mod emitter;
pub mod engine;

pub use crate::engine::run;
