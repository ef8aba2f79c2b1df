//! Page-level building blocks of a columnar file format: dictionary pages and
//! their decoders, page indexes, row-interval page selection, and the cursor
//! logic of a reader that visits only the selected pages.

pub mod compression;
pub mod decompressor;
pub mod dict_encoding;
pub mod error;
pub mod indexes;
pub mod metadata;
pub mod page_dict;
pub mod read;
pub mod schema;
