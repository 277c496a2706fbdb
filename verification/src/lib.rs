//! Error codes, offset-carrying handles and loop-filter bookkeeping of an AV1 decoder.

pub mod error;
pub mod with_offset;
pub mod lf_apply;
