//! EPUB: an archive of XHTML with a package file that says in which order it is read.

pub mod book;
pub mod content;
pub mod fonts;
pub mod hrefs;
pub mod images;
pub mod leads;
pub mod opf;
pub mod package;
pub mod reading;
pub mod toc;
pub mod words;
