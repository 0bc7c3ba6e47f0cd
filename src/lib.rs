//! Run SELECT-style queries against delimited data that lives at a URL or in a file.
//!
//! The library holds the verified core: the identifier rules that let a locator stand
//! as a bare table name, the conversion of a parsed statement into a [`convert::Sql`]
//! descriptor, the choice of how a locator is fetched, and the execution of a
//! descriptor against an in-memory table.
pub mod convert;
pub mod data_set;
pub mod dialect;
pub mod fetcher;
