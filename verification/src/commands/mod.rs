//! What the reader does on request.

pub mod arranging;
pub mod book;
pub mod counting;
pub mod covers;
pub mod finding;
pub mod fonts;
pub mod habits;
pub mod keeping;
pub mod pages;
pub mod recording;
pub mod search;
pub mod settings;
pub mod shelf;
pub mod stats;
pub mod summary;
