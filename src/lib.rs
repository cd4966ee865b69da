//! A single-file, page-oriented key-value storage engine: fixed-size pages,
//! a chunked bitmap page allocator, an LRU page cache with write-back, and an
//! ordered record store of linked leaf pages under index pages, with the
//! byte layout of its pages and header.
#![allow(non_camel_case_types)]

pub mod layout;
pub mod bitmap;
pub mod error;
pub mod allocator;
pub mod page;
pub mod cache;
pub mod kvdb;
pub mod modify;
pub mod codec;
