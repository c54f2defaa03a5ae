//! The container format under its older module name.
pub use crate::bbf::error::{BbfError, Table};
pub use crate::bbf::petrify::{petrify_bytes, petrify_check_header, petrify_index, petrify_layout};
pub use crate::bbf::reader::{Reader, ReaderSource};
pub use crate::bbf::types::{
    Asset, Footer, Header, Meta, Page, Section, BBF_PETRIFICATION_FLAG,
    BBF_VARIABLE_REAM_SIZE_FLAG, DEFAULT_GUARD_ALIGNMENT, DEFAULT_SMALL_REAM_THRESHOLD,
    MAX_FORME_SIZE, VERSION,
};
pub use crate::bbf::writer::{Builder, FinishedContainer};
