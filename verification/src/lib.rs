//! A character-level GPT toolkit: the tokenizer, the corpus reader, the model
//! presets and the index arithmetic of training and sampling, each with its
//! contract.
pub mod backend;
pub mod config;
pub mod corpus;
pub mod dataset;
pub mod sampling;
pub mod text;
pub mod training;
