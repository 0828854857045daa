//! An embedded document database whose pages are stored under authenticated
//! encryption: page layout and pager, primary index, an on-disk B-tree, the
//! document codec, the query executor and the session protocol's decisions.
pub mod bytes;
pub mod error;
pub mod text;
pub mod page;
pub mod symmetric;
pub mod kem;
pub mod order;
pub mod index;
pub mod pager;
pub mod btree;
pub mod document;
pub mod query;
pub mod session;
pub mod consensus;
