//! Glyph Protocol: runtime registration of custom vector glyphs at
//! Private-Use-Area codepoints, transported over APC escape sequences.
//!
//! This crate holds the renderer-agnostic core: the wire parser and the
//! replies ([`parse`]), the per-session glossary of registered glyphs
//! ([`glossary`]) and what a session does with a message ([`dispatch`]), the
//! `glyf` and COLR decoders ([`glyf`], [`colr`]), and what the rasterizers fill
//! and where ([`raster`], [`place`]). It depends on no terminal model or GUI: a
//! terminal owns a [`Glossary`] and a GUI reads it to rasterize.

pub mod bytes;
pub mod colr;
pub mod decimal;
pub mod dispatch;
pub mod fraction;
pub mod glossary;
pub mod glyf;
pub mod laws;
pub mod parse;
pub mod payload;
pub mod place;
pub mod raster;
pub mod sizing;

pub use glossary::{
    Glossary, GlossarySnapshot, RegisteredGlyph, VersionedGlyph, GLOSSARY_CAPACITY,
};
pub use sizing::SizingParams;
