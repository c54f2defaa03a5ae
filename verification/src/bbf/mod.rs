//! The container format: on-disk records, reading, building and linearization.
pub mod bytes;
pub mod error;
pub mod hash;
pub mod laws;
pub mod layout;
pub mod petrify;
pub mod reader;
pub mod types;
pub mod writer;

pub use error::{BbfError, Table};
pub use petrify::{petrify_bytes, petrify_check_header, petrify_index, petrify_layout};
pub use reader::{Reader, ReaderSource};
pub use types::{
    Asset, Footer, Header, Meta, Page, Section, BBF_PETRIFICATION_FLAG,
    BBF_VARIABLE_REAM_SIZE_FLAG, DEFAULT_GUARD_ALIGNMENT, DEFAULT_SMALL_REAM_THRESHOLD,
    MAX_FORME_SIZE, VERSION,
};
pub use writer::{Builder, FinishedContainer};
