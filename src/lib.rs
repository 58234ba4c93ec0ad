//! Interpretation and transformation of parsed G-code programs.
//!
//! A program is a sequence of [`program::Line`]s, each holding [`program::Command`]s whose
//! arguments carry fixed-point coordinates. The library computes the XY
//! extent of the toolpath and rewrites motion arguments by translation or
//! mirroring, refusing commands whose meaning it does not know.
pub mod program;
pub mod extent;
pub mod transform;
