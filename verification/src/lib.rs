//! Core of an EPUB reader: resource-path normalisation, the chapter index built
//! from a book's spine and table of contents, chapter loading state, and the
//! framing of the parsed-book cache file.

pub mod text;
pub mod path;
pub mod cache;
pub mod chapter;
pub mod reviews;
pub mod book;
pub mod loading;
pub mod links;
pub mod pages;
