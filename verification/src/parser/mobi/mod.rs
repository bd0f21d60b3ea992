//! Mobipocket books: MOBI, PRC and AZW3.

pub mod book;
pub mod chapter;
pub mod compress;
pub mod entries;
pub mod head;
pub mod images;
pub mod index;
pub mod layout;
pub mod leads;
pub mod packing;
pub mod pdb;
pub mod pieces;
pub mod toc;
