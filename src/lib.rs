//! Welds runs of short line segments of a 2D drawing into arcs and circles.
//!
//! `codec` reads and writes the tagged ASCII interchange format, `chain` stitches
//! segments into directed chains, and `weld` walks each chain and decides where
//! lines, arcs and circles stand. The geometry that the walk consults is handed in
//! by the caller. `roundtrip` proves that the reader gives back what the writer
//! wrote, and `text` writes integers in decimal.
pub mod chain;
pub mod codec;
pub mod error;
pub mod pipeline;
pub mod roundtrip;
pub mod text;
pub mod weld;
