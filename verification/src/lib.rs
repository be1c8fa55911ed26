//! Reconciles two decrypted password-vault trees: each tree is flattened
//! into a flat, title-keyed index, and the two indexes are compared entry
//! by entry into an ordered list of classified differences.

pub mod comparator;
pub mod indexer;
pub mod report;
pub mod vault;
