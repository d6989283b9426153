//! Verified core of the satori memory-pack tool: input hardening, answer
//! post-processing, prompt assembly and result grouping.

pub mod text;
pub mod answer;
pub mod synth;
pub mod openai;
pub mod path;
pub mod validate;
pub mod rank;
pub mod lexical;
pub mod rerank;
pub mod pack_location;
pub mod service;
pub mod provenance;
pub mod stripping;
