//! A minimal full-text relevance core: a lexer that normalizes raw text into
//! tokens, frequency tables over those tokens, and the exact arithmetic
//! behind TF-IDF scoring.

pub mod chars;
pub mod lexer;
pub mod model;
