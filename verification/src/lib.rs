//! Directory-tree listing logic: sorting entries and rebuilding the tree,
//! parsing path lists, formatting sizes and permissions, and laying out
//! the rendered tree as text, HTML or JSON.

pub mod text;
pub mod utils;
pub mod path;
pub mod order;
pub mod entry;
pub mod natural;
pub mod sort;
pub mod tree;
pub mod view;
pub mod limits;
pub mod columns;
pub mod html;
pub mod json;
pub mod color;
pub mod link;
pub mod pipeline;
