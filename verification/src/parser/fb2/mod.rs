//! FictionBook: one XML document with sections, notes and images.

pub mod book;
pub mod document;
pub mod leads;
pub mod nesting;
pub mod notes;
