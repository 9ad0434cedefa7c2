//! A small library for keeping a directory of architecture decision
//! records (ADRs) consistent: parsing the two on-disk layouts into one
//! canonical record, mutating status and supersession fields in place,
//! and regenerating the collection index.

use vstd::prelude::*;

pub mod actions;
pub mod codec;
pub mod config;
pub mod domain;
pub mod index;
pub mod laws;
pub mod repository;
pub mod text;
pub mod yaml_util;

pub use crate::config::Config;
pub use crate::domain::{parse_number, AdrMeta};
pub use crate::repository::MemRepository;

verus! {

} // verus!
