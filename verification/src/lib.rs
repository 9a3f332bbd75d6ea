use vstd::prelude::*;

pub mod text;
pub mod markdown_quality;
pub mod document;
pub mod render_common;
pub mod inline;
pub mod footnotes;
pub mod markdown;
pub mod html;
pub mod html_links;
pub mod html_tags;
pub mod error;
pub mod extractors;
pub mod layout;
pub mod doc_view;
pub mod comparison;
pub mod pdf;
pub mod pdf_classify;
pub mod pdf_regions;
