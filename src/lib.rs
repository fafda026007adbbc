pub mod types;
pub mod xref;
pub mod pages;
pub mod object;
pub mod objstream;
pub mod backend;
pub mod file;
pub mod startxref;
