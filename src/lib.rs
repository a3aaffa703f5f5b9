//! A small static site engine: a template tag processor with recursive
//! fragment expansion, a layout composer, and an index page generator that
//! groups posts by year.

pub mod text;
pub mod variables;
pub mod template;
pub mod layout;
pub mod index_page;
