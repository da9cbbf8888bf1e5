//! A verified file-aggregation engine: directory-tree walking with
//! extension and ignore filtering, an indented tree renderer, a literal
//! single-pass template engine, and an aggregation pipeline that combines
//! a folder's files into one document.
pub mod aggregate;
pub mod clock;
pub mod fstree;
pub mod laws;
pub mod render;
pub mod template;
pub mod text;
pub mod walker;
