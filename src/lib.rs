//! Identifies software licenses in source trees by discriminating n-gram
//! fingerprints, with a fuzzy-hash fallback.

pub mod ngram;
pub mod text;
pub mod discriminator;
pub mod matcher;
pub mod store;
pub mod pathex;
pub mod ssdeep;
pub mod scan;
pub mod walk;
