//! A small matching engine that maps an error message to a previously
//! recorded fix by vector similarity.
//!
//! Records pair an error text with a fix text and an embedding vector.
//! Embeddings are held in fixed-point form: each component is an integer
//! `c` standing for the real value `c / 32768`, so that similarity
//! comparisons and the persistence format are exact and provable.

pub mod similarity;

pub mod store;

pub mod engine;

pub mod flow;

pub mod codec;
