use vstd::prelude::*;

pub mod buffered;
pub mod bytes;
pub mod config;
pub mod enc;
pub mod error;
pub mod fs;
pub mod ftpfs;
pub mod kv;
pub mod mem;
pub mod meta;
pub mod names;
pub mod page;
pub mod page_check;
pub mod page_codec;
pub mod page_format;
pub mod page_image;
pub mod page_model;
pub mod page_store;
pub mod sorted_map;
pub mod tree;

verus! {

} // verus!
