//! A library for turning a game world's sector-addressed binary
//! containers into version-control-friendly structured text and back.
//!
//! The pieces, leaf first: the tag value model (`tag`) and the document
//! model (`doc`); decimal formatting and the float grammar (`numfmt`);
//! the trusted boundary around the outside crates (`ext`); the
//! tag-to-document codec with its type-marker strings (`codec`); the
//! region container codec (`region`); the denoise and restore transforms
//! (`denoise`); document pruning (`prune`); size-capped slicing
//! (`slicing`); document text rendering (`jsontext`); the configuration
//! surface (`config`); and the per-container pipeline that strings it
//! all together (`pipeline`).

pub mod codec;
pub mod config;
pub mod denoise;
pub mod doc;
pub mod ext;
pub mod jsontext;
pub mod numfmt;
pub mod pipeline;
pub mod prune;
pub mod region;
pub mod slicing;
pub mod tag;
pub mod util;
