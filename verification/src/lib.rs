//! Core library of the `buddy_cast` tool: decryption of UDCast packages,
//! parsing of their embedded MFCC databases, subtitle conversion and the
//! content-list rules, each stated as a contract and proved by Verus.

pub mod api;
pub mod archive;
pub mod cli;
pub mod db;
pub mod decrypt;
pub mod error;
pub mod model;
pub mod subtitle;
pub mod text;
pub mod workflow;
