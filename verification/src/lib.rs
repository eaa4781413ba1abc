//! A small wiki builder: the memex syntax scanner, entry extraction, the
//! directory tree of pages and the rendering of pages to HTML and gemtext.
pub mod common;
pub mod directory_tree;
pub mod entry;
pub mod parser;
pub mod regexes;
pub mod render;
pub mod scanner;
pub mod site;
pub mod sketch;
pub mod text;
