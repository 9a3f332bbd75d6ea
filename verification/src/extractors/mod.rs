//! Document extractors: plugin descriptions and the construction of an
//! `InternalDocument` from what each format yields.
pub mod email;
pub mod html;
pub mod html_build;
pub mod iwork;
