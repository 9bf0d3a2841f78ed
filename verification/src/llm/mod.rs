//! Language-model side: vocabulary tokenizer, architecture detection and
//! sizing, the network catalog, GGUF container decoding and the Ollama
//! HTTP wire format.

pub mod arch;
pub mod network;
pub mod tokenizer;
pub mod gguf;
pub mod catalog;
pub mod ollama;
