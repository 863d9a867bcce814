//! An SFNT/TrueType font-outline engine: it parses a font file held in memory
//! into renderable glyph outlines.
//!
//! The pipeline: [`tables`] parses the table directory and the `head` table;
//! [`glyphs`] decodes every simple glyph from `loca` + `glyf` into contours of
//! points; [`mapping`] decodes a format-4 `cmap` subtable into a character map;
//! [`outline`] flattens a contour's quadratic curves into a polyline; [`font`]
//! aggregates the decoded data and caches fonts by path. [`input`] tracks
//! keyboard button state for the interactive front end.
//!
//! All multi-byte fields are big-endian and are read through the bounds-checked
//! cursor of [`reader`]; a malformed top-level table makes a load fail cleanly,
//! while a malformed individual glyph record degrades to an empty outline.

pub mod reader;

pub mod tables;

pub mod glyphs;

pub mod mapping;

pub mod outline;

pub mod font;

pub mod input;
