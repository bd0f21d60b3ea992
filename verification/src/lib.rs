//! Core of an offline e-book reader.

pub mod addresses;
pub mod archive;
pub mod cleaning;
pub mod commands;
pub mod decoding;
pub mod error;
pub mod folding;
pub mod keyed;
pub mod launch;
pub mod model;
pub mod natural;
pub mod numbers;
pub mod parser;
pub mod paths;
pub mod regexes;
pub mod routes;
pub mod sorting;
pub mod state;
pub mod text;
pub mod transfer;
pub mod trimming;
pub mod views;
pub mod windows;
pub mod xml;
