//! Identity primitives: signed claim tokens, credential parsers, password
//! hashing, and sortable identifiers.

use vstd::prelude::*;

pub mod common;
mod entropy;
pub mod json;
mod strutil;
pub mod parser;
pub mod requests;
pub mod token;

