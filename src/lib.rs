//! A small transactional storage engine: block-addressed pages, a buffer
//! pool with pinning, a write-ahead log of typed records, undo-only recovery
//! and a shared/exclusive lock table.

pub mod error;
pub mod codec;
pub mod block_id;
pub mod page;
pub mod file_mgr;
pub mod log_mgr;
pub mod log_page;
pub mod buffer_mgr;
pub mod buffer_list;
pub mod log_record;
pub mod commit_record;
pub mod set_string_record;
pub mod recovery;
pub mod lock_table;
pub mod transaction;

pub use error::{DbError, DbResult};
