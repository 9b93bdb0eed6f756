//! Laya: GGUF model files, tokenization and decision-request handling.
use vstd::prelude::*;

pub mod number;
pub mod text;
pub mod json;
pub mod gguf;
pub mod pretok;
pub mod unicode;
pub mod tokenizer;
pub mod models;
pub mod request;
pub mod registry;
pub mod server;
pub mod cli;

verus! {
}
