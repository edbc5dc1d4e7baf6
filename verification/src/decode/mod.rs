//! Token tables of speech models.

pub mod tokens;
