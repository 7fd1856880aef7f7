//! The `.bnc` container.

pub mod container;
pub mod create;
pub mod directory;
pub mod entry;
pub mod laws;
pub mod member;
pub mod restore;
pub mod walk;
