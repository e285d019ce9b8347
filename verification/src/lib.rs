//! A slotted-page heap-file storage engine and the pull-based query operators
//! that run over it.
//!
//! The storage half keeps variable-length byte records in fixed-size pages:
//! [`page::Page`] is the raw byte block, [`heap_page::HeapPage`] the slotted
//! layout over it, [`heapfile::HeapFile`] an array of pages, and
//! [`storage_manager::StorageManager`] the value-grained facade. What the
//! pages hold is defined apart from their bytes in [`slot_model`] and
//! [`store_model`], where the laws of insertion, deletion and iteration are
//! proved.
//!
//! The query half is the protocol [`opiterator::OpIterator`] and the
//! operators that follow it: rows held in memory, grouped aggregation and
//! the nested-loop join, over the rows of [`tuple`] and the values of
//! [`field`].
use vstd::prelude::*;

pub mod bytecode_expr;
mod counters;
pub mod error;
pub mod field;
pub mod heap_page;
pub mod heapfile;
pub mod heapfileiter;
pub mod ids;
pub mod opiterator;
pub mod page;
pub mod slot_model;
pub mod storage_manager;
pub mod store_model;
pub mod tuple;

verus! {

/// Size in bytes of every page, in memory and on disk.
pub const PAGE_SIZE: usize = 4096;

/// Position of a page inside its heap file.
pub type PageId = u16;

/// Identifier of a record inside its page.
pub type SlotId = u16;

/// Identifier of a container, that is of one heap file.
pub type ContainerId = u16;

} // verus!
