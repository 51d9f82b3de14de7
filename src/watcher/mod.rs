//! Detection of changes in the content tree.
pub mod file;
pub mod rescan;
