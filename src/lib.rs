//! Page-oriented on-disk storage: the fixed file header and its byte codec,
//! and the arithmetic and checks behind page-addressed random access.

pub mod header;
pub mod page;
