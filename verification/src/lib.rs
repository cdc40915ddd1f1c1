//! Storage layer of a single-table, disk-backed store.
//!
//! Records are fixed-width rows indexed by a `u32` primary key inside a
//! page-structured search tree: leaf pages hold sorted key/record cells,
//! internal pages hold sorted key/child-pointer cells.  The pager owns the
//! byte image of the backing file and a lazily populated in-memory slot
//! table of decoded pages; callers read the file into bytes, work on the
//! table, and write the flushed bytes back out.

use vstd::prelude::*;

pub mod le;
pub mod page;
pub mod pager;
pub mod row;
pub mod table;
pub mod tree;

verus! {

/// Width in bytes of the record id column.
pub const ID_SIZE: usize = 4;

/// Maximum width in bytes of the username column.
pub const COLUMN_USERNAME_SIZE: usize = 32;

/// Maximum width in bytes of the email column.
pub const COLUMN_EMAIL_SIZE: usize = 255;

/// Fixed width in bytes of one encoded record.
pub const ROW_SIZE: usize = ID_SIZE + COLUMN_USERNAME_SIZE + COLUMN_EMAIL_SIZE;

/// Fixed width in bytes of one page of the backing file.
pub const PAGE_SIZE: usize = 4096;

/// Capacity of the pager's page slot table.
pub const TABLE_MAX_PAGES: usize = 100;

/// How many rows a flat page of records would hold.
pub const ROWS_PER_PAGE: usize = PAGE_SIZE / ROW_SIZE;

/// How many rows a full table of flat pages would hold.
pub const TABLE_MAX_ROWS: usize = ROWS_PER_PAGE * TABLE_MAX_PAGES;

} // verus!
