//! What a vector display decides and computes: scenes and text as strokes, the scan
//! scheduler that slices them into subframes, the command line, and the choices of
//! every frame, all on binary32 numbers held by their encodings.
pub mod binary32;
pub mod bloom;
pub mod buffers;
pub mod cli;
pub mod decimal;
pub mod font;
pub mod geometry;
pub mod glyphs;
pub mod natural;
pub mod order;
pub mod render;
pub mod rounding;
pub mod scan;
pub mod screenshot;
pub mod telemetry;
pub mod text;
pub mod text_block;
