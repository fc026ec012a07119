//! A small read-only LDAP directory: distinguished names, attributes,
//! access rules, an indexed in-memory snapshot and the per-request
//! protocol decisions, all with machine-checked contracts.

pub mod acl;
pub mod attribute;
pub mod attributes;
pub mod config;
pub mod database;
pub mod datatypes;
pub mod dn;
pub mod entry;
pub mod filter;
pub mod server;
mod text;
pub mod traits;
