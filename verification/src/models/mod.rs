//! Models.

pub mod mobilenet_v4;

pub mod kv_cache;
pub mod attention;
pub mod sampling;
pub mod tokenizer;
pub mod tokenizer_file;
pub mod gemma4;
