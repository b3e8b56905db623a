//! A reader of flattened device tree blobs.

pub mod dtb_format;
pub mod dtb_reader;
pub mod error;
pub mod laws;
pub mod layout;
pub mod layout_laws;
pub mod path;
pub mod reading_laws;
pub mod search;
pub mod search_laws;
pub mod struct_block;
pub mod struct_item;
pub mod text;
pub mod tree;
pub mod utf8;
