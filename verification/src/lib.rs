//! Chunk resolution for literate programs: a document of named text chunks
//! that refer to one another is parsed into a store, expanded into flat
//! output text, and annotated with the language of each chunk.

pub mod text;
pub mod chunk;
pub mod tangle;
pub mod label;
pub mod language;
pub mod propagate;
pub mod weave;
