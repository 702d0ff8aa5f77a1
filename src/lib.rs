//! A content-addressed block store: each distinct content is kept once,
//! under the hex form of its digest, and read back as a chain of byte ranges.

pub mod block;
pub mod chain;
pub mod compare;
pub mod digest;
pub mod naming;
pub mod store;
