//! Reduction of chapter documents to structured text.

pub mod simple;
